//! Decoding and rendering the groups of a frame.
use crate::jxl::block::{channel_shift, ChannelShift};
use crate::jxl::compact::{whole_blocks, CompactHfCoeffStore};
use crate::jxl::dequant::{block_kernel_ok, BlockJob, Pixels};
use crate::jxl::frame_error::Error;
use crate::jxl::grid::{Grid, SharedSubgrid};
use crate::jxl::group_direct::{render_direct, rendered_directly};
use crate::jxl::group_grids::{render_strided, rendered_in_grids, transform_group, transformed};
use crate::jxl::group_slabs::{
    decode_into_store, lemma_added_len, lemma_same_cells, make_store, render_slabs,
    rendered_from_slabs,
};
use crate::jxl::group_task::{
    group_blocks, last_failure, lemma_stream_bound, modular_told, GroupOutcome, GroupTask,
    PassData,
};
use crate::jxl::pass_group::{FrameHeader, HfGlobal, LfGlobalVarDct, LfGroup, ModularTask};
use crate::jxl::plane_blocks::{plane_kernel_ok, PlaneJob};
use crate::jxl::region::Region;
use crate::jxl::render::{
    cfl_area, choose_decode_step, compact_hf_lf_area, decode_step, group_is_rendered, group_meets,
    group_pixels, lf_area, tile_area, Area, DecodeStep, PassEntry,
};
use crate::jxl::symbols::SymbolSource;
use crate::jxl::varblocks::{all_blocks_are_dct8, only_dct8};
use vstd::prelude::*;

verus! {

/// The first pass of a group.
pub open spec fn first_pass<R>(passes: Seq<Option<PassData<R>>>) -> Option<PassEntry> {
    if passes.len() == 0 {
        None
    } else {
        match passes[0] {
            Some(data) => Some(
                PassEntry { partial: data.partial, has_modular: data.modular is Some },
            ),
            None => None,
        }
    }
}

fn describe_first<R>(passes: &Vec<Option<PassData<R>>>) -> (r: Option<PassEntry>)
    ensures
        r == first_pass(passes@),
{
    if passes.len() == 0 {
        return None;
    }
    match &passes[0] {
        Some(data) => Some(
            PassEntry { partial: data.partial, has_modular: data.modular.is_some() },
        ),
        None => None,
    }
}

pub fn is_subsampled(header: &FrameHeader) -> (r: bool)
    ensures
        r == (exists|k: int| 0 <= k < 3 && #[trigger] header.jpeg_upsampling@[k] != 0),
{
    let r: bool = header.jpeg_upsampling[0] != 0 || header.jpeg_upsampling[1] != 0
        || header.jpeg_upsampling[2] != 0;
    proof {
        let up = header.jpeg_upsampling@;
        assert(r == (up[0] != 0 || up[1] != 0 || up[2] != 0));
    }
    r
}

/// How the coefficients of a group are decoded.
pub open spec fn group_step<R>(task: GroupTask, passes: Seq<Option<PassData<R>>>) -> DecodeStep {
    decode_step(
        task.lf_group.hf_meta is Some,
        task.hf_global is Some && task.rendered,
        task.subsampled(),
        passes.len() as int,
        first_pass(passes),
        only_dct8(task.info()),
    )
}

/// What becomes of the grids of a group.
pub open spec fn group_done<
    R: SymbolSource,
    K: Fn(&BlockJob) -> Pixels,
    D: Fn(&PlaneJob) -> Vec<u32>,
    T: Fn(&PlaneJob) -> Vec<u32>,
>(
    kernel: K,
    dequant: D,
    transform: T,
    task: GroupTask,
    passes: Seq<Option<PassData<R>>>,
    before: Seq<Grid<u32>>,
    after: Seq<Grid<u32>>,
) -> bool {
    match group_step(task, passes) {
        DecodeStep::Nothing => transformed(transform, task, before, after),
        DecodeStep::Direct => rendered_directly(
            kernel,
            task,
            whole_blocks(task.pass_run::<R>(0, passes[0]->Some_0.bitstream.model()).2),
            before,
            after,
        ),
        DecodeStep::Compact => if last_failure(task, passes, passes.len()) is None {
            rendered_from_slabs(kernel, task, passes, before, after)
        } else {
            transformed(transform, task, before, after)
        },
        DecodeStep::Strided => rendered_in_grids(
            dequant,
            transform,
            task,
            passes,
            before,
            after,
        ),
    }
}

/// What is told of a group: nothing where its passes are not decoded.
pub open spec fn group_told<R: SymbolSource>(
    task: GroupTask,
    passes: Seq<Option<PassData<R>>>,
    outcome: GroupOutcome,
) -> bool {
    if task.has_hf() {
        &&& outcome.failure == last_failure(task, passes, passes.len())
        &&& outcome.modular@ == modular_told(task, passes, passes.len())
    } else {
        outcome.failure is None && outcome.modular@.len() == 0
    }
}

/// Decodes and renders a group: where there is no subsampling block by block or from slabs,
/// otherwise in its grids. A group whose coefficients are missing, not needed or could not be
/// decoded is transformed with its low frequencies.
pub fn render_group<
    R: SymbolSource,
    K: Fn(&BlockJob) -> Pixels,
    D: Fn(&PlaneJob) -> Vec<u32>,
    T: Fn(&PlaneJob) -> Vec<u32>,
>(
    kernel: &K,
    dequant: &D,
    transform: &T,
    task: &GroupTask<'_>,
    passes: Vec<Option<PassData<R>>>,
    out: &mut Vec<Grid<u32>>,
) -> (r: GroupOutcome)
    requires
        block_kernel_ok(*kernel),
        plane_kernel_ok(*dequant),
        plane_kernel_ok(*transform),
        task.decodable(passes@.len() as int),
        task.renderable(old(out)@),
    ensures
        group_told(*task, passes@, r),
        group_done(*kernel, *dequant, *transform, *task, passes@, old(out)@, final(out)@),
{
    let (blocks, hf_global) = match (&task.lf_group.hf_meta, task.hf_global) {
        (Some(blocks), Some(hf_global)) => (blocks, hf_global),
        _ => {
            transform_group(transform, task, out);
            return GroupOutcome { failure: None, modular: Vec::new() };
        },
    };
    let info = group_blocks(task, blocks);
    let all_dct8: bool = all_blocks_are_dct8(&info);
    let step: DecodeStep = choose_decode_step(
        true,
        task.rendered,
        is_subsampled(task.frame_header),
        passes.len(),
        describe_first(&passes),
        all_dct8,
    );
    match step {
        DecodeStep::Nothing => {
            transform_group(transform, task, out);
            GroupOutcome { failure: None, modular: Vec::new() }
        },
        DecodeStep::Direct => {
            let ghost given = passes@;
            let mut passes: Vec<Option<PassData<R>>> = passes;
            let mut modular: Vec<Option<ModularTask>> = Vec::new();
            let mut failure: Option<Error> = None;
            if let Some(data) = passes.remove(0) {
                failure = render_direct(kernel, task, hf_global, data, out);
                modular.push(None);
            }
            proof {
                assert(last_failure(*task, given, 0) is None);
                assert(last_failure(*task, given, 1) == task.pass_failure(0, given[0]));
                assert(modular@ =~= modular_told(*task, given, 1));
            }
            GroupOutcome { failure, modular }
        },
        DecodeStep::Compact => {
            let ghost given = passes@;
            let mut store: CompactHfCoeffStore = make_store(task, &info);
            let ghost fresh = store;
            let outcome: GroupOutcome = decode_into_store(task, hf_global, passes, &mut store);
            proof {
                lemma_added_len(*task, given, fresh.slots(), fresh.data@, given.len());
                lemma_same_cells(fresh, store, info);
            }
            if outcome.failure.is_none() {
                render_slabs::<R, K>(kernel, task, Ghost(given), &store, &info, all_dct8, out);
            } else {
                transform_group(transform, task, out);
            }
            outcome
        },
        DecodeStep::Strided => render_strided(
            dequant,
            transform,
            task,
            hf_global,
            &info,
            passes,
            out,
        ),
    }
}

// ---- parts of a group ----
/// A part of a grid that an area covers.
pub open spec fn is_part<T>(part: SharedSubgrid<T>, grid: Grid<T>, area: Area) -> bool {
    &&& *part.grid == grid
    &&& part.left == area.left
    &&& part.top == area.top
    &&& part.width == area.width
    &&& part.height == area.height
}

/// The tiles of a group.
pub open spec fn group_tiles(header: FrameHeader, group_idx: int, width: int, height: int) -> Area {
    tile_area(
        group_idx,
        header.groups_per_row as int,
        header.group_dim as int,
        width,
        height,
    )
}

/// The factors of chroma prediction of a group, out of those of its low-frequency group.
pub fn group_factors<'a>(
    factors: &'a Grid<i32>,
    header: &FrameHeader,
    group_idx: u32,
    width: usize,
    height: usize,
) -> (r: SharedSubgrid<'a, i32>)
    requires
        header.groups_per_row >= 1,
        header.group_dim <= 0x2000_0000,
        width <= usize::MAX - 63,
        height <= usize::MAX - 63,
    ensures
        is_part(
            r,
            *factors,
            group_tiles(*header, group_idx as int, width as int, height as int),
        ),
{
    let area: Area = cfl_area(group_idx, header.groups_per_row, header.group_dim, width, height);
    SharedSubgrid {
        grid: factors,
        left: area.left,
        top: area.top,
        width: area.width,
        height: area.height,
    }
}

/// The low frequencies of a channel of a group of `width` by `height` pixels, where those of
/// `region` are at hand.
pub open spec fn group_lf_area(
    header: FrameHeader,
    group_idx: int,
    width: int,
    height: int,
    region: Region,
    channel: int,
) -> Area {
    lf_area(
        group_idx,
        header.groups_per_row as int,
        header.group_dim as int,
        width,
        height,
        region,
        channel_shift(header.jpeg_upsampling@, channel),
    )
}

/// The low frequencies of a group start within a region.
pub open spec fn lf_at_hand(header: FrameHeader, group_idx: int, region: Region) -> bool {
    let per_row = header.groups_per_row as int;
    let left = group_idx % per_row * header.group_dim;
    let top = group_idx / per_row * header.group_dim;
    &&& per_row >= 1
    &&& left <= i32::MAX
    &&& top <= i32::MAX
    &&& region.left <= left / 8 <= region.left + region.width
    &&& region.top <= top / 8 <= region.top + region.height
}

pub fn group_lf<'a>(
    lf: &'a Grid<u32>,
    header: &FrameHeader,
    group_idx: u32,
    width: u32,
    height: u32,
    region: Region,
    channel: usize,
) -> (r: SharedSubgrid<'a, u32>)
    requires
        channel < 3,
        width <= u32::MAX - 7,
        height <= u32::MAX - 7,
        lf_at_hand(*header, group_idx as int, region),
    ensures
        is_part(
            r,
            *lf,
            group_lf_area(
                *header,
                group_idx as int,
                width as int,
                height as int,
                region,
                channel as int,
            ),
        ),
{
    let area: Area = compact_hf_lf_area(
        group_idx,
        header.groups_per_row,
        header.group_dim,
        width,
        height,
        region,
        ChannelShift::from_jpeg_upsampling(&header.jpeg_upsampling, channel),
    );
    SharedSubgrid {
        grid: lf,
        left: area.left,
        top: area.top,
        width: area.width,
        height: area.height,
    }
}

// ---- all groups ----
/// What is there of the data of a pass for a group.
pub enum PassSource<R> {
    Missing,
    /// The data cannot be had.
    Failed(Error),
    Found(PassData<R>),
}

/// A group, what there is of its data, and the grids that it is rendered into.
pub struct GroupSource<'a, R> {
    pub group_idx: u32,
    /// The low-frequency group that it belongs to, if that was decoded.
    pub lf_group: Option<&'a LfGroup>,
    pub lf: Vec<SharedSubgrid<'a, u32>>,
    pub x_from_y: SharedSubgrid<'a, i32>,
    pub b_from_y: SharedSubgrid<'a, i32>,
    pub passes: Vec<PassSource<R>>,
    pub out: Vec<Grid<u32>>,
}

/// What the groups of a frame share.
pub struct FrameInput<'a> {
    pub frame_header: &'a FrameHeader,
    pub lf_vardct: &'a LfGlobalVarDct,
    pub hf_global: Option<&'a HfGlobal>,
    /// The region that is rendered.
    pub region: Region,
    pub tracker: Option<usize>,
}

/// A group that was rendered.
pub struct RenderedGroup {
    pub grids: Vec<Grid<u32>>,
    pub modular: Vec<Option<ModularTask>>,
}

impl<'a> FrameInput<'a> {
    /// Whether a group meets the region.
    pub open spec fn meets(&self, group_idx: int) -> bool {
        group_meets(
            group_pixels(
                group_idx,
                self.frame_header.groups_per_row as int,
                self.frame_header.group_dim as int,
            ),
            self.region,
        )
    }

    /// A group's number is one that a frame can have.
    pub open spec fn numbers(&self, group_idx: int) -> bool {
        let per_row = self.frame_header.groups_per_row as int;
        let dim = self.frame_header.group_dim as int;
        &&& per_row >= 1
        &&& 1 <= dim <= 1024
        &&& group_idx % per_row * dim <= i32::MAX
        &&& group_idx / per_row * dim <= i32::MAX
    }

    pub open spec fn task<R>(&self, source: GroupSource<'a, R>) -> GroupTask<'a> {
        GroupTask {
            frame_header: self.frame_header,
            lf_group: source.lf_group->Some_0,
            group_idx: source.group_idx,
            lf_vardct: self.lf_vardct,
            hf_global: self.hf_global,
            tracker: self.tracker,
            rendered: self.meets(source.group_idx as int),
            lf: source.lf,
            x_from_y: source.x_from_y,
            b_from_y: source.b_from_y,
        }
    }

    /// The group has its place in the frame.
    pub open spec fn fits<R>(&self, source: GroupSource<'a, R>) -> bool {
        &&& self.numbers(source.group_idx as int)
        &&& source.lf_group is Some ==> {
            &&& self.task(source).decodable(source.passes@.len() as int)
            &&& self.task(source).renderable(source.out@)
        }
    }

    /// The passes of a group that are decoded.
    pub open spec fn passes<R>(&self, source: GroupSource<'a, R>) -> Seq<Option<PassData<R>>> {
        if self.task(source).has_hf() {
            found(source.passes@)
        } else {
            Seq::empty()
        }
    }

    /// The error that decoding a group ends with.
    pub open spec fn group_failure<R: SymbolSource>(&self, source: GroupSource<'a, R>) -> Option<
        Error,
    > {
        if source.lf_group is Some {
            last_failure(
                self.task(source),
                self.passes(source),
                self.passes(source).len(),
            )
        } else {
            None
        }
    }

    /// The error that kept data of a group from being found.
    pub open spec fn source_failure<R>(&self, source: GroupSource<'a, R>) -> Option<Error> {
        if source.lf_group is Some && self.task(source).has_hf() {
            last_unfound(source.passes@, source.passes@.len())
        } else {
            None
        }
    }

    /// The error of a frame with the first `n` groups: what goes wrong in decoding comes later
    /// than what was not found, and the last error counts.
    pub open spec fn decode_failure<R: SymbolSource>(
        &self,
        sources: Seq<GroupSource<'a, R>>,
        n: nat,
    ) -> Option<Error>
        decreases n,
    {
        if n == 0 {
            None
        } else {
            match self.group_failure(sources[n - 1]) {
                Some(e) => Some(e),
                None => self.decode_failure(sources, (n - 1) as nat),
            }
        }
    }

    pub open spec fn find_failure<R: SymbolSource>(
        &self,
        sources: Seq<GroupSource<'a, R>>,
        n: nat,
    ) -> Option<Error>
        decreases n,
    {
        if n == 0 {
            None
        } else {
            match self.source_failure(sources[n - 1]) {
                Some(e) => Some(e),
                None => self.find_failure(sources, (n - 1) as nat),
            }
        }
    }

    pub open spec fn failure<R: SymbolSource>(&self, sources: Seq<GroupSource<'a, R>>) -> Option<
        Error,
    > {
        match self.decode_failure(sources, sources.len()) {
            Some(e) => Some(e),
            None => self.find_failure(sources, sources.len()),
        }
    }
}

/// The data of passes that was found.
pub open spec fn found<R>(passes: Seq<PassSource<R>>) -> Seq<Option<PassData<R>>> {
    Seq::new(
        passes.len(),
        |i: int|
            match passes[i] {
                PassSource::Found(data) => Some(data),
                _ => None,
            },
    )
}

/// The last error among the first `n` passes of a group.
pub open spec fn last_unfound<R>(passes: Seq<PassSource<R>>, n: nat) -> Option<Error>
    decreases n,
{
    if n == 0 {
        None
    } else {
        match passes[n - 1] {
            PassSource::Failed(e) => Some(e),
            _ => last_unfound(passes, (n - 1) as nat),
        }
    }
}

/// What becomes of a group: one whose low-frequency group is missing stays as it is.
pub open spec fn source_done<
    'a,
    R: SymbolSource,
    K: Fn(&BlockJob) -> Pixels,
    D: Fn(&PlaneJob) -> Vec<u32>,
    T: Fn(&PlaneJob) -> Vec<u32>,
>(
    kernel: K,
    dequant: D,
    transform: T,
    frame: FrameInput<'a>,
    source: GroupSource<'a, R>,
    done: RenderedGroup,
) -> bool {
    if source.lf_group is Some {
        let task = frame.task(source);
        let passes = frame.passes(source);
        &&& group_done(kernel, dequant, transform, task, passes, source.out@, done.grids@)
        &&& done.modular@ == modular_told(task, passes, passes.len())
    } else {
        done.grids@ == source.out@ && done.modular@.len() == 0
    }
}

/// Sorts the data of passes from errors.
fn find_passes<R>(passes: Vec<PassSource<R>>) -> (r: (Vec<Option<PassData<R>>>, Option<Error>))
    ensures
        r.0@ == found(passes@),
        r.1 == last_unfound(passes@, passes@.len()),
{
    let ghost given = passes@;
    let count: usize = passes.len();
    let mut passes: Vec<PassSource<R>> = passes;
    let mut entries: Vec<Option<PassData<R>>> = Vec::new();
    let mut failure: Option<Error> = None;
    let mut i: usize = 0;
    assert(given.skip(0) =~= given);
    while i < count
        invariant
            i <= count,
            count == given.len(),
            passes@ == given.skip(i as int),
            entries@.len() == i,
            forall|k: int| 0 <= k < i ==> #[trigger] entries@[k] == found(given)[k],
            failure == last_unfound(given, i as nat),
        decreases count - i,
    {
        let source: PassSource<R> = passes.remove(0);
        assert(source == given[i as int]);
        assert(passes@ =~= given.skip(i + 1));
        match source {
            PassSource::Missing => {
                entries.push(None);
            },
            PassSource::Failed(e) => {
                failure = Some(e);
                entries.push(None);
            },
            PassSource::Found(data) => {
                entries.push(Some(data));
            },
        }
        i = i + 1;
    }
    assert(entries@ =~= found(given));
    (entries, failure)
}

/// Renders a group of a frame, and tells the errors of finding and decoding its data.
fn render_source<
    'a,
    R: SymbolSource,
    K: Fn(&BlockJob) -> Pixels,
    D: Fn(&PlaneJob) -> Vec<u32>,
    T: Fn(&PlaneJob) -> Vec<u32>,
>(
    kernel: &K,
    dequant: &D,
    transform: &T,
    frame: &FrameInput<'a>,
    source: GroupSource<'a, R>,
) -> (r: (RenderedGroup, Option<Error>, Option<Error>))
    requires
        block_kernel_ok(*kernel),
        plane_kernel_ok(*dequant),
        plane_kernel_ok(*transform),
        frame.fits(source),
    ensures
        source_done(*kernel, *dequant, *transform, *frame, source, r.0),
        r.1 == frame.source_failure(source),
        r.2 == frame.group_failure(source),
{
    let ghost given = source;
    let lf_group: &'a LfGroup = match source.lf_group {
        Some(lf_group) => lf_group,
        None => {
            return (RenderedGroup { grids: source.out, modular: Vec::new() }, None, None);
        },
    };
    let header: &'a FrameHeader = frame.frame_header;
    let rendered: bool = group_is_rendered(
        source.group_idx,
        header.groups_per_row,
        header.group_dim,
        frame.region,
    );
    let task = GroupTask {
        frame_header: header,
        lf_group,
        group_idx: source.group_idx,
        lf_vardct: frame.lf_vardct,
        hf_global: frame.hf_global,
        tracker: frame.tracker,
        rendered,
        lf: source.lf,
        x_from_y: source.x_from_y,
        b_from_y: source.b_from_y,
    };
    assert(task == frame.task(given));
    let (passes, unfound) = if lf_group.hf_meta.is_some() && frame.hf_global.is_some() && rendered {
        find_passes(source.passes)
    } else {
        (Vec::new(), None)
    };
    assert(passes@ =~= frame.passes(given));
    proof {
        lemma_fewer_passes(task, given.passes@.len() as int, passes@.len() as int);
    }
    let mut grids: Vec<Grid<u32>> = source.out;
    let outcome: GroupOutcome = render_group(
        kernel,
        dequant,
        transform,
        &task,
        passes,
        &mut grids,
    );
    assert(outcome.modular@ =~= modular_told(task, passes@, passes@.len()));
    (RenderedGroup { grids, modular: outcome.modular }, unfound, outcome.failure)
}

/// Tables for some passes serve fewer.
proof fn lemma_fewer_passes(task: GroupTask, more: int, fewer: int)
    requires
        task.decodable(more),
        0 <= fewer <= more,
    ensures
        task.decodable(fewer),
{
    lemma_stream_bound(*task.frame_header, fewer, more, task.group_idx as int);
}

/// Decodes and renders the groups of a frame. All of them are rendered; then the last error is
/// handed on, if there was one.
pub fn render_groups<
    'a,
    R: SymbolSource,
    K: Fn(&BlockJob) -> Pixels,
    D: Fn(&PlaneJob) -> Vec<u32>,
    T: Fn(&PlaneJob) -> Vec<u32>,
>(
    kernel: &K,
    dequant: &D,
    transform: &T,
    frame: &FrameInput<'a>,
    sources: Vec<GroupSource<'a, R>>,
) -> (r: Result<Vec<RenderedGroup>, Error>)
    requires
        block_kernel_ok(*kernel),
        plane_kernel_ok(*dequant),
        plane_kernel_ok(*transform),
        forall|i: int| 0 <= i < sources@.len() ==> frame.fits(#[trigger] sources@[i]),
    ensures
        match frame.failure(sources@) {
            Some(e) => r == Err::<Vec<RenderedGroup>, Error>(e),
            None => r is Ok && r->Ok_0@.len() == sources@.len() && forall|i: int|
                0 <= i < sources@.len() ==> source_done(
                    *kernel,
                    *dequant,
                    *transform,
                    *frame,
                    sources@[i],
                    #[trigger] r->Ok_0@[i],
                ),
        },
{
    let ghost given = sources@;
    let count: usize = sources.len();
    let mut sources: Vec<GroupSource<'a, R>> = sources;
    let mut unfound: Option<Error> = None;
    let mut failure: Option<Error> = None;
    let mut done: Vec<RenderedGroup> = Vec::new();
    let mut i: usize = 0;
    assert(given.skip(0) =~= given);
    while i < count
        invariant
            i <= count,
            count == given.len(),
            sources@ == given.skip(i as int),
            block_kernel_ok(*kernel),
            plane_kernel_ok(*dequant),
            plane_kernel_ok(*transform),
                forall|k: int| 0 <= k < given.len() ==> frame.fits(#[trigger] given[k]),
            unfound == frame.find_failure(given, i as nat),
            failure == frame.decode_failure(given, i as nat),
            done@.len() == i,
            forall|k: int|
                0 <= k < i ==> source_done(
                    *kernel,
                    *dequant,
                    *transform,
                    *frame,
                    given[k],
                    #[trigger] done@[k],
                ),
        decreases count - i,
    {
        let source: GroupSource<'a, R> = sources.remove(0);
        assert(source == given[i as int]);
        assert(sources@ =~= given.skip(i + 1));
        let (group, lost, failed) = render_source(kernel, dequant, transform, frame, source);
        if let Some(e) = lost {
            unfound = Some(e);
        }
        if let Some(e) = failed {
            failure = Some(e);
        }
        done.push(group);
        i = i + 1;
    }
    match (failure, unfound) {
        (Some(e), _) => Err(e),
        (None, Some(e)) => Err(e),
        (None, None) => Ok(done),
    }
}

} // verus!
