//! A group of a frame with the data of its passes, and what decoding them gives.
use crate::jxl::block::{channel_shift, lemma_no_subsampling, BlockInfo, ChannelShift};
use crate::jxl::error::VardctError;
use crate::jxl::frame_error::Error;
use crate::jxl::grid::{Grid, SharedSubgrid};
use crate::jxl::hf_coeff::{group_run, CellModel, HfCoeffParams, HfUpdate};
use crate::jxl::hf_store::{added, all_updates};
use crate::jxl::pass_group::{
    covers, group_area, group_fits, group_result, modular_task, params_for, stream_index,
    FrameHeader, HfGlobal, LfGlobalVarDct, LfGroup, ModularSubimage, ModularTask,
};
use crate::jxl::plane_blocks::{
    block_held, direct_block_fits, lf_covers, lf_options, plane_holds, planes_hold,
};
use crate::jxl::symbols::SymbolSource;
use crate::jxl::varblocks::{all_varblocks, is_varblock, lemma_listed_cell, VarblockInfo};
use vstd::prelude::*;

verus! {

/// The data of a pass for a group.
pub struct PassData<R> {
    pub bitstream: R,
    /// The data may end early.
    pub partial: bool,
    pub modular: Option<ModularSubimage>,
}

/// A group, and what its blocks are decoded and rendered with.
pub struct GroupTask<'a> {
    pub frame_header: &'a FrameHeader,
    pub lf_group: &'a LfGroup,
    pub group_idx: u32,
    pub lf_vardct: &'a LfGlobalVarDct,
    /// Tables for the coefficients; without them there are low frequencies only.
    pub hf_global: Option<&'a HfGlobal>,
    pub tracker: Option<usize>,
    /// The group meets the region that is rendered.
    pub rendered: bool,
    /// Low frequencies of the three channels.
    pub lf: Vec<SharedSubgrid<'a, u32>>,
    /// Factors of chroma prediction.
    pub x_from_y: SharedSubgrid<'a, i32>,
    pub b_from_y: SharedSubgrid<'a, i32>,
}

/// What decoding a group gives beside its pixels.
pub struct GroupOutcome {
    /// The last error of a pass whose data is complete.
    pub failure: Option<Error>,
    /// The modular-coded image that follows the coefficients, for each pass that was decoded.
    pub modular: Vec<Option<ModularTask>>,
}

impl<'a> GroupTask<'a> {
    /// The blocks of the group.
    pub open spec fn info(&self) -> SharedSubgrid<'a, BlockInfo> {
        choose|info: SharedSubgrid<'a, BlockInfo>| self.is_info(info)
    }

    pub open spec fn is_info(&self, info: SharedSubgrid<BlockInfo>) -> bool {
        self.lf_group.hf_meta matches Some(blocks) && covers(
            info,
            blocks,
            group_area(*self.frame_header, self.group_idx as int, blocks),
        )
    }

    /// Parameters for the coefficients of a pass.
    pub open spec fn params(&self, pass: int) -> HfCoeffParams<'a> {
        choose|p: HfCoeffParams<'a>| self.is_params(p, pass)
    }

    pub open spec fn is_params(&self, p: HfCoeffParams, pass: int) -> bool {
        self.hf_global matches Some(hf_global) && params_for(
            p,
            *self.frame_header,
            *self.lf_group,
            pass,
            self.group_idx as int,
            *self.lf_vardct,
            *hf_global,
            self.tracker,
        )
    }

    pub open spec fn shift(&self, c: int) -> ChannelShift {
        channel_shift(self.frame_header.jpeg_upsampling@, c)
    }

    pub open spec fn shifts(&self) -> Seq<ChannelShift> {
        seq![self.shift(0), self.shift(1), self.shift(2)]
    }

    pub open spec fn subsampled(&self) -> bool {
        exists|k: int| 0 <= k < 3 && #[trigger] self.frame_header.jpeg_upsampling@[k] != 0
    }

    /// The group's parts lie within the frame, and there are tables for `passes` passes.
    pub open spec fn decodable(&self, passes: int) -> bool {
        &&& group_fits(*self.frame_header, *self.lf_group, self.group_idx as int)
        &&& self.frame_header.group_dim <= 1024
        &&& self.hf_global matches Some(hf_global) ==> passes <= hf_global.hf_passes@.len()
        &&& passes <= u32::MAX
        &&& stream_index(*self.frame_header, passes, self.group_idx as int) <= u32::MAX
        &&& forall|p: HfCoeffParams, pass: int|
            0 <= pass < passes && #[trigger] self.is_params(p, pass) ==> p.wf()
    }

    /// Whether the coefficients of the group are decoded.
    pub open spec fn has_hf(&self) -> bool {
        self.lf_group.hf_meta is Some && self.hf_global is Some && self.rendered
    }

    /// Factors of chroma prediction cover a block.
    pub open spec fn tiles_cover(&self, v: VarblockInfo) -> bool {
        let right = (v.shifted_bx * 8) / 64;
        let bottom = (v.shifted_by * 8 + 8 * v.dct_select.size().1 - 1) / 64;
        &&& right < self.x_from_y.width
        &&& bottom < self.x_from_y.height
        &&& right < self.b_from_y.width
        &&& bottom < self.b_from_y.height
    }

    /// The grids hold the blocks of the group, and low frequencies and factors cover them.
    pub open spec fn renderable(&self, grids: Seq<Grid<u32>>) -> bool {
        let blocks = all_varblocks(self.info(), self.shift(0));
        &&& self.lf@.len() == 3
        &&& self.lf_group.hf_meta is None ==> lf_covers(self.lf@, grids)
        &&& self.lf_group.hf_meta is Some ==> planes_hold(
            grids,
            self.info(),
            self.shifts(),
            lf_options(self.lf@),
        )
        &&& self.has_hf() && !self.subsampled() ==> {
            &&& self.x_from_y.wf()
            &&& self.b_from_y.wf()
            &&& forall|i: int| 0 <= i < blocks.len() ==> self.tiles_cover(#[trigger] blocks[i])
        }
    }

    // ---- one pass ----
    /// What decoding the coefficients of a pass does.
    pub open spec fn pass_run<R: SymbolSource>(&self, pass: int, m: R::Model) -> (
        Result<(), VardctError>,
        R::Model,
        Seq<CellModel>,
    ) {
        group_run::<R>(self.params(pass), m)
    }

    /// An error counts unless the data may end early.
    pub open spec fn pass_failure<R: SymbolSource>(
        &self,
        pass: int,
        entry: Option<PassData<R>>,
    ) -> Option<Error> {
        match entry {
            Some(data) => match self.pass_run::<R>(pass, data.bitstream.model()).0 {
                Err(e) => if data.partial {
                    None
                } else {
                    Some(Error::VarDct(e))
                },
                Ok(_) => None,
            },
            None => None,
        }
    }

    pub open spec fn pass_modular<R: SymbolSource>(
        &self,
        pass: int,
        entry: Option<PassData<R>>,
    ) -> Option<ModularTask> {
        match entry {
            Some(data) => match group_result(
                self.pass_run::<R>(pass, data.bitstream.model()).0,
                data.partial,
                modular_task(
                    data.modular,
                    *self.frame_header,
                    pass,
                    self.group_idx as int,
                    data.partial,
                ),
            ) {
                Ok(task) => task,
                Err(_) => None,
            },
            None => None,
        }
    }

    /// The coefficients that a pass adds.
    pub open spec fn pass_updates<R: SymbolSource>(
        &self,
        pass: int,
        entry: Option<PassData<R>>,
    ) -> Seq<HfUpdate> {
        match entry {
            Some(data) => all_updates(self.pass_run::<R>(pass, data.bitstream.model()).2),
            None => Seq::empty(),
        }
    }
}

// ---- all passes ----
/// The last failure of the first `n` passes.
pub open spec fn last_failure<R: SymbolSource>(
    task: GroupTask,
    passes: Seq<Option<PassData<R>>>,
    n: nat,
) -> Option<Error>
    decreases n,
{
    if n == 0 {
        None
    } else {
        match task.pass_failure(n - 1, passes[n - 1]) {
            Some(e) => Some(e),
            None => last_failure(task, passes, (n - 1) as nat),
        }
    }
}

/// Coefficients after those of the first `n` passes were added at their positions.
pub open spec fn passes_added<R: SymbolSource>(
    task: GroupTask,
    passes: Seq<Option<PassData<R>>>,
    position: spec_fn(HfUpdate) -> int,
    data: Seq<i32>,
    n: nat,
) -> Seq<i32>
    decreases n,
{
    if n == 0 {
        data
    } else {
        added(
            passes_added(task, passes, position, data, (n - 1) as nat),
            task.pass_updates(n - 1, passes[n - 1]),
            position,
        )
    }
}

/// What is told of the modular-coded images of the first `n` passes.
pub open spec fn modular_told<R: SymbolSource>(
    task: GroupTask,
    passes: Seq<Option<PassData<R>>>,
    n: nat,
) -> Seq<Option<ModularTask>> {
    Seq::new(n, |i: int| task.pass_modular(i, passes[i]))
}

// ---- there is one set of parameters ----
pub proof fn lemma_one_params(task: GroupTask, p: HfCoeffParams, pass: int)
    requires
        task.is_params(p, pass),
    ensures
        task.params(pass) == p,
{
    let q = task.params(pass);
    assert(task.is_params(q, pass));
    match (p.lf_quant, q.lf_quant) {
        (Some(a), Some(b)) => {
            assert forall|idx: int| 0 <= idx < 3 implies #[trigger] a@[idx] == b@[idx] by {}
            assert(a =~= b);
        },
        _ => {},
    }
}

pub proof fn lemma_one_info(task: GroupTask, info: SharedSubgrid<BlockInfo>)
    requires
        task.is_info(info),
    ensures
        task.info() == info,
{
    assert(task.is_info(task.info()));
}

/// The blocks of a group, as a part of those of its low-frequency group.
pub(crate) fn group_blocks<'a>(task: &GroupTask<'a>, blocks: &'a Grid<BlockInfo>) -> (r: SharedSubgrid<
    'a,
    BlockInfo,
>)
    requires
        group_fits(*task.frame_header, *task.lf_group, task.group_idx as int),
        task.frame_header.group_dim <= 1024,
        task.lf_group.hf_meta == Some(*blocks),
    ensures
        task.is_info(r),
        r == task.info(),
        r.wf(),
        r.width <= 128,
        r.height <= 128,
{
    let header: &'a FrameHeader = task.frame_header;
    let col: u32 = task.group_idx % header.groups_per_row % 8;
    let row: u32 = task.group_idx / header.groups_per_row % 8;
    let dim: usize = (header.group_dim / 8) as usize;
    let ghost area = group_area(*header, task.group_idx as int, *blocks);
    assert(area.left == col * dim && area.top == row * dim);
    let left: usize = col as usize * dim;
    let top: usize = row as usize * dim;
    let width: usize = if blocks.width - left < dim {
        blocks.width - left
    } else {
        dim
    };
    let height: usize = if blocks.height - top < dim {
        blocks.height - top
    } else {
        dim
    };
    let r = SharedSubgrid { grid: blocks, left, top, width, height };
    proof {
        lemma_one_info(*task, r);
    }
    r
}

pub proof fn lemma_stream_bound(header: FrameHeader, pass: int, passes: int, group: int)
    requires
        0 <= pass <= passes,
    ensures
        stream_index(header, pass, group) <= stream_index(header, passes, group),
{
    let n = header.num_groups as int;
    assert(pass * n <= passes * n) by (nonlinear_arith)
        requires
            pass <= passes,
            n >= 0,
    ;
}

/// A block that is listed has its place in grids, low frequencies and factors.
pub proof fn lemma_block_placed(task: GroupTask, grids: Seq<Grid<u32>>, v: VarblockInfo)
    requires
        task.renderable(grids),
        task.has_hf(),
        !task.subsampled(),
        task.info().width <= 128,
        task.info().height <= 128,
        all_varblocks(task.info(), task.shift(0)).contains(v),
    ensures
        direct_block_fits(task.lf@, task.x_from_y, task.b_from_y, v, grids),
        exists|x: int, y: int| #[trigger] is_varblock(task.info(), task.shift(0), x, y, v),
        v.shifted_bx < task.info().width,
        v.shifted_by < task.info().height,
        task.info().at(v.shifted_bx as int, v.shifted_by as int) == (BlockInfo::Data {
            dct_select: v.dct_select,
            hf_mul: v.hf_mul,
        }),
{
    let info = task.info();
    let up = task.frame_header.jpeg_upsampling@;
    lemma_no_subsampling(up, 0);
    lemma_no_subsampling(up, 1);
    lemma_no_subsampling(up, 2);
    let blocks = all_varblocks(info, task.shift(0));
    let i = choose|i: int| 0 <= i < blocks.len() && blocks[i] == v;
    let cell = lemma_listed_cell(info, task.shift(0), 0, 0, i);
    assert(is_varblock(info, task.shift(0), cell.0, cell.1, v));
    let shifts = task.shifts();
    let lf = lf_options(task.lf@);
    assert forall|c: int| 0 <= c < 3 implies (#[trigger] grids[c]).wf() && task.lf@[c].wf()
        && block_held(grids[c], v, Some(task.lf@[c])) by {
        assert(plane_holds(grids[c], all_varblocks(info, shifts[c]), lf[c]));
        assert(shifts[c] == task.shift(0));
        assert(lf[c] == Some(task.lf@[c]));
        assert(block_held(grids[c], blocks[i], lf[c]));
    }
    assert(task.tiles_cover(blocks[i]));
}

} // verus!
