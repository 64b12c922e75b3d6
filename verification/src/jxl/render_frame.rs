//! Rendering of a transform-coded frame: its global data, its low frequencies, then its groups.
use crate::jxl::dequant::{block_kernel_ok, BlockJob, Pixels};
use crate::jxl::frame_error;
use crate::jxl::grid::{Grid, SharedSubgrid};
use crate::jxl::lf_stage::{chroma_from_luma_lf, LfSample};
use crate::jxl::pass_group::{FrameHeader, HfGlobal, LfGlobalVarDct, LfGroup};
use crate::jxl::plane_blocks::{plane_kernel_ok, PlaneJob};
use crate::jxl::region::{lemma_container, Region};
use crate::jxl::render::{
    halves_height, halves_width, is_render_region, lf_part_of, lf_region, render_region, rounded,
    rounded_size,
};
use crate::jxl::render_error::Error;
use crate::jxl::render_group::{
    group_factors, group_lf, group_lf_area, group_tiles, is_part, is_subsampled, lf_at_hand,
    render_groups, source_done, FrameInput, GroupSource, PassSource, RenderedGroup,
};
use crate::jxl::symbols::SymbolSource;
use vstd::prelude::*;

verus! {

// ---- global data ----
/// Where the global data of low frequencies is taken from.
#[derive(Debug, Clone, Copy, PartialEq, Eq, Structural)]
pub enum LfGlobalFrom {
    /// From an earlier rendering.
    Cached,
    /// From the frame.
    Parsed,
}

/// Data that is at hand and whole is taken; otherwise that of the frame. Data that is missing, and
/// data in part where the low frequencies have a frame of their own, leave the frame incomplete.
pub open spec fn lf_global_from(
    cached_partial: Option<bool>,
    parsed: Option<Result<bool, frame_error::Error>>,
    has_lf_frame: bool,
) -> Result<LfGlobalFrom, Error> {
    if cached_partial == Some(false) {
        Ok(LfGlobalFrom::Cached)
    } else {
        match parsed {
            None => Err(Error::IncompleteFrame),
            Some(Err(e)) => Err(Error::Frame(e)),
            Some(Ok(partial)) => if partial && has_lf_frame {
                Err(Error::IncompleteFrame)
            } else {
                Ok(LfGlobalFrom::Parsed)
            },
        }
    }
}

pub fn choose_lf_global(
    cached_partial: Option<bool>,
    parsed: Option<Result<bool, frame_error::Error>>,
    has_lf_frame: bool,
) -> (r: Result<LfGlobalFrom, Error>)
    ensures
        r == lf_global_from(cached_partial, parsed, has_lf_frame),
{
    match cached_partial {
        Some(false) => {
            return Ok(LfGlobalFrom::Cached);
        },
        _ => {},
    }
    match parsed {
        None => Err(Error::IncompleteFrame),
        Some(Err(e)) => Err(Error::from(e)),
        Some(Ok(partial)) => {
            if has_lf_frame && partial {
                Err(Error::IncompleteFrame)
            } else {
                Ok(LfGlobalFrom::Parsed)
            }
        },
    }
}

/// Global data of low frequencies.
#[derive(Clone, Copy)]
pub struct LfGlobal<'a> {
    /// Its modular-coded image is not complete.
    pub partial: bool,
    pub vardct: &'a LfGlobalVarDct,
}

/// Global data that is at hand, and that the frame gives.
pub struct LfGlobals<'a> {
    pub cached: Option<LfGlobal<'a>>,
    pub parsed: Option<Result<LfGlobal<'a>, frame_error::Error>>,
}

impl<'a> LfGlobals<'a> {
    pub open spec fn cached_partial(&self) -> Option<bool> {
        match self.cached {
            Some(g) => Some(g.partial),
            None => None,
        }
    }

    pub open spec fn parsed_partial(&self) -> Option<Result<bool, frame_error::Error>> {
        match self.parsed {
            Some(Ok(g)) => Some(Ok(g.partial)),
            Some(Err(e)) => Some(Err(e)),
            None => None,
        }
    }

    /// The data that is used, or why there is none.
    pub open spec fn chosen(&self, has_lf_frame: bool) -> Result<LfGlobal<'a>, Error> {
        match lf_global_from(self.cached_partial(), self.parsed_partial(), has_lf_frame) {
            Err(e) => Err(e),
            Ok(LfGlobalFrom::Cached) => Ok(self.cached->Some_0),
            Ok(LfGlobalFrom::Parsed) => Ok(self.parsed->Some_0->Ok_0),
        }
    }

    pub fn pick(&self, has_lf_frame: bool) -> (r: Result<LfGlobal<'a>, Error>)
        ensures
            r == self.chosen(has_lf_frame),
    {
        let cached_partial: Option<bool> = match &self.cached {
            Some(g) => Some(g.partial),
            None => None,
        };
        let parsed: Option<Result<bool, frame_error::Error>> = match &self.parsed {
            Some(Ok(g)) => Some(Ok(g.partial)),
            Some(Err(e)) => Some(Err(*e)),
            None => None,
        };
        assert(cached_partial == self.cached_partial());
        assert(parsed == self.parsed_partial());
        match choose_lf_global(cached_partial, parsed, has_lf_frame) {
            Err(e) => Err(e),
            Ok(LfGlobalFrom::Cached) => match self.cached {
                Some(g) => Ok(g),
                None => Err(Error::IncompleteFrame),
            },
            Ok(LfGlobalFrom::Parsed) => match self.parsed {
                Some(Ok(g)) => Ok(g),
                _ => Err(Error::IncompleteFrame),
            },
        }
    }
}

// ---- low frequencies ----
/// Where low frequencies come from.
pub struct LfSource {
    /// The low frequencies of the frame; none where they have a frame of their own.
    pub loaded: Result<Option<Vec<Grid<u32>>>, Error>,
    /// The picture of the frame that holds them.
    pub lf_frame: Option<Result<Vec<Grid<u32>>, Error>>,
    /// Which low frequencies of the three channels are at hand.
    pub regions: [Region; 3],
}

/// Grids of the same sizes.
pub open spec fn same_sizes(a: Seq<Grid<u32>>, b: Seq<Grid<u32>>) -> bool {
    &&& a.len() == b.len()
    &&& forall|c: int|
        0 <= c < a.len() ==> (#[trigger] a[c]).wf() && a[c].width == b[c].width && a[c].height
            == b[c].height
}

/// The grids of three channels, of one number of samples.
pub open spec fn lf_grids(lf: Seq<Grid<u32>>) -> bool {
    &&& lf.len() == 3
    &&& forall|c: int| 0 <= c < 3 ==> (#[trigger] lf[c]).wf()
}

impl LfSource {
    /// The low frequencies before anything is done to them.
    pub open spec fn given(&self) -> Option<Seq<Grid<u32>>> {
        match self.loaded {
            Err(_) => None,
            Ok(loaded) => match self.lf_frame {
                Some(Ok(grids)) => Some(grids@),
                Some(Err(_)) => None,
                None => match loaded {
                    Some(grids) => Some(grids@),
                    None => None,
                },
            },
        }
    }

    /// A frame without one of its own has low frequencies.
    pub open spec fn wf(&self) -> bool {
        &&& self.lf_frame is None && self.loaded is Ok ==> self.loaded->Ok_0 is Some
        &&& self.given() matches Some(grids) ==> lf_grids(grids)
    }
}

/// Chroma was predicted from luma in the low frequencies.
pub open spec fn lf_predicted<K: Fn(&LfSample) -> (u32, u32)>(
    predict: K,
    before: Seq<Grid<u32>>,
    after: Seq<Grid<u32>>,
) -> bool {
    &&& same_sizes(after, before)
    &&& after[1].data@ == before[1].data@
    &&& forall|i: int|
        #![trigger after[0].data@[i]]
        #![trigger after[2].data@[i]]
        0 <= i < before[0].data@.len() && i < before[1].data@.len() && i < before[2].data@.len()
            ==> call_ensures(
            predict,
            (&(LfSample {
                x: before[0].data@[i],
                y: before[1].data@[i],
                b: before[2].data@[i],
            }),),
            (after[0].data@[i], after[2].data@[i]),
        )
    &&& forall|i: int|
        0 <= i < before[0].data@.len() && (i >= before[1].data@.len() || i
            >= before[2].data@.len()) ==> #[trigger] after[0].data@[i] == before[0].data@[i]
    &&& forall|i: int|
        0 <= i < before[2].data@.len() && (i >= before[1].data@.len() || i
            >= before[0].data@.len()) ==> #[trigger] after[2].data@[i] == before[2].data@[i]
}

/// Chroma is predicted where no channel is subsampled.
pub open spec fn lf_after_prediction<K: Fn(&LfSample) -> (u32, u32)>(
    predict: K,
    subsampled: bool,
    before: Seq<Grid<u32>>,
    after: Seq<Grid<u32>>,
) -> bool {
    if subsampled {
        after == before
    } else {
        lf_predicted(predict, before, after)
    }
}

/// What smoothing has to take and give.
pub open spec fn smoothing_ok<
    S: Fn(&Vec<Grid<u32>>) -> Result<Vec<Grid<u32>>, Error>,
>(smooth: S) -> bool {
    &&& forall|lf: Vec<Grid<u32>>| #[trigger] call_requires(smooth, (&lf,))
    &&& forall|lf: Vec<Grid<u32>>, r: Result<Vec<Grid<u32>>, Error>|
        #[trigger] call_ensures(smooth, (&lf,), r) && r is Ok ==> same_sizes(r->Ok_0@, lf@)
}

/// The outcome of predicting and smoothing: prediction where no channel is subsampled, smoothing
/// unless the frame skips it.
pub open spec fn lf_finished<
    K: Fn(&LfSample) -> (u32, u32),
    S: Fn(&Vec<Grid<u32>>) -> Result<Vec<Grid<u32>>, Error>,
>(
    predict: K,
    smooth: S,
    subsampled: bool,
    skip_smoothing: bool,
    loaded: Seq<Grid<u32>>,
    r: Result<Vec<Grid<u32>>, Error>,
) -> bool {
    exists|mid: Vec<Grid<u32>>|
        {
            &&& #[trigger] lf_after_prediction(predict, subsampled, loaded, mid@)
            &&& if skip_smoothing {
                r == Ok::<Vec<Grid<u32>>, Error>(mid)
            } else {
                call_ensures(smooth, (&mid,), r)
            }
        }
}

/// The low frequencies that groups are rendered with, or why there are none. Those of a frame of
/// their own are taken as they are.
pub open spec fn lf_ready<
    K: Fn(&LfSample) -> (u32, u32),
    S: Fn(&Vec<Grid<u32>>) -> Result<Vec<Grid<u32>>, Error>,
>(
    predict: K,
    smooth: S,
    subsampled: bool,
    skip_smoothing: bool,
    source: LfSource,
    r: Result<Vec<Grid<u32>>, Error>,
) -> bool {
    match source.loaded {
        Err(e) => r == Err::<Vec<Grid<u32>>, Error>(e),
        Ok(loaded) => match source.lf_frame {
            Some(picture) => r == picture,
            None => lf_finished(
                predict,
                smooth,
                subsampled,
                skip_smoothing,
                loaded->Some_0@,
                r,
            ),
        },
    }
}

/// Makes the low frequencies ready.
pub fn prepare_lf<
    K: Fn(&LfSample) -> (u32, u32),
    S: Fn(&Vec<Grid<u32>>) -> Result<Vec<Grid<u32>>, Error>,
>(
    predict: &K,
    smooth: &S,
    subsampled: bool,
    skip_smoothing: bool,
    source: LfSource,
) -> (r: Result<Vec<Grid<u32>>, Error>)
    requires
        forall|s: &LfSample| #[trigger] call_requires(*predict, (s,)),
        smoothing_ok(*smooth),
        source.wf(),
    ensures
        lf_ready(*predict, *smooth, subsampled, skip_smoothing, source, r),
        r is Ok ==> source.given() is Some && same_sizes(r->Ok_0@, source.given()->Some_0),
{
    let loaded: Option<Vec<Grid<u32>>> = match source.loaded {
        Err(e) => {
            return Err(e);
        },
        Ok(loaded) => loaded,
    };
    match source.lf_frame {
        Some(Err(e)) => {
            return Err(e);
        },
        Some(Ok(picture)) => {
            return Ok(picture);
        },
        None => {},
    }
    let mut lf: Vec<Grid<u32>> = match loaded {
        Some(lf) => lf,
        None => {
            return Err(Error::IncompleteFrame);
        },
    };
    let ghost before = lf@;
    assert(before[0].wf() && before[1].wf() && before[2].wf());
    if !subsampled {
        predict_lf(predict, &mut lf);
    }
    let ghost mid = lf;
    assert(same_sizes(mid@, before));
    assert(lf_after_prediction(*predict, subsampled, before, mid@));
    if skip_smoothing {
        return Ok(lf);
    }
    let r: Result<Vec<Grid<u32>>, Error> = smooth(&lf);
    assert(call_ensures(*smooth, (&mid,), r));
    r
}

fn predict_lf<K: Fn(&LfSample) -> (u32, u32)>(predict: &K, lf: &mut Vec<Grid<u32>>)
    requires
        forall|s: &LfSample| #[trigger] call_requires(*predict, (s,)),
        lf_grids(old(lf)@),
    ensures
        lf_predicted(*predict, old(lf)@, final(lf)@),
{
    let ghost before = lf@;
    assert(before[0].wf() && before[1].wf() && before[2].wf());
    let mut b: Grid<u32> = lf.remove(2);
    let y: Grid<u32> = lf.remove(1);
    let mut x: Grid<u32> = lf.remove(0);
    chroma_from_luma_lf(predict, &mut x.data, &y.data, &mut b.data);
    lf.push(x);
    lf.push(y);
    lf.push(b);
    assert(same_sizes(lf@, before));
}

// ---- groups ----
/// A group, what there is of its data, and the grids that it is rendered into.
pub struct GroupPlace<'a, R> {
    pub group_idx: u32,
    /// Pixels of the group.
    pub width: u32,
    pub height: u32,
    /// The low-frequency group that it belongs to, if that was decoded.
    pub lf_group: Option<&'a LfGroup>,
    /// Factors of chroma prediction of the low-frequency group.
    pub x_from_y: &'a Grid<i32>,
    pub b_from_y: &'a Grid<i32>,
    pub passes: Vec<PassSource<R>>,
    pub out: Vec<Grid<u32>>,
}

impl<'a, R> GroupPlace<'a, R> {
    /// The parts of the group can be told.
    pub open spec fn wf(&self, header: FrameHeader, regions: Seq<Region>) -> bool {
        self.lf_group is Some ==> {
            &&& self.width <= u32::MAX - 7
            &&& self.height <= u32::MAX - 7
            &&& self.out@.len() == 3
            &&& self.out@[0].width <= usize::MAX - 63
            &&& self.out@[0].height <= usize::MAX - 63
            &&& header.group_dim <= 0x2000_0000
            &&& forall|c: int|
                0 <= c < 3 ==> lf_at_hand(header, self.group_idx as int, #[trigger] regions[c])
        }
    }
}

/// The group with what its number gives it: its part of the low frequencies and of the factors.
pub open spec fn is_placed<R>(
    source: GroupSource<R>,
    place: GroupPlace<R>,
    header: FrameHeader,
    regions: Seq<Region>,
    lf: Seq<Grid<u32>>,
) -> bool {
    let idx = place.group_idx as int;
    &&& source.group_idx == place.group_idx
    &&& source.lf_group == place.lf_group
    &&& source.passes == place.passes
    &&& source.out == place.out
    &&& place.lf_group is Some ==> {
        let tiles = group_tiles(
            header,
            idx,
            place.out@[0].width as int,
            place.out@[0].height as int,
        );
        &&& source.lf@.len() == 3
        &&& forall|c: int|
            0 <= c < 3 ==> is_part(
                #[trigger] source.lf@[c],
                lf[c],
                group_lf_area(
                    header,
                    idx,
                    place.width as int,
                    place.height as int,
                    regions[c],
                    c,
                ),
            )
        &&& is_part(source.x_from_y, *place.x_from_y, tiles)
        &&& is_part(source.b_from_y, *place.b_from_y, tiles)
    }
}

pub open spec fn are_placed<R>(
    sources: Seq<GroupSource<R>>,
    places: Seq<GroupPlace<R>>,
    header: FrameHeader,
    regions: Seq<Region>,
    lf: Seq<Grid<u32>>,
) -> bool {
    &&& sources.len() == places.len()
    &&& forall|i: int|
        0 <= i < sources.len() ==> is_placed(
            #[trigger] sources[i],
            places[i],
            header,
            regions,
            lf,
        )
}

/// Gives a group its parts of the low frequencies and of the factors.
fn place_group<'b, 'a: 'b, R>(
    place: GroupPlace<'a, R>,
    header: &FrameHeader,
    regions: &[Region; 3],
    lf: &'b Vec<Grid<u32>>,
) -> (r: GroupSource<'b, R>)
    requires
        lf@.len() == 3,
        place.wf(*header, regions@),
    ensures
        is_placed(r, place, *header, regions@, lf@),
{
    let mut parts: Vec<SharedSubgrid<'b, u32>> = Vec::new();
    let (x_from_y, b_from_y): (SharedSubgrid<'b, i32>, SharedSubgrid<'b, i32>) =
        if place.lf_group.is_some() {
        let idx: u32 = place.group_idx;
        let (w, h): (u32, u32) = (place.width, place.height);
        proof {
            assert(lf_at_hand(*header, idx as int, regions@[0]));
            assert(lf_at_hand(*header, idx as int, regions@[1]));
            assert(lf_at_hand(*header, idx as int, regions@[2]));
        }
        parts.push(group_lf(&lf[0], header, idx, w, h, regions[0], 0));
        parts.push(group_lf(&lf[1], header, idx, w, h, regions[1], 1));
        parts.push(group_lf(&lf[2], header, idx, w, h, regions[2], 2));
        let width: usize = place.out[0].width;
        let height: usize = place.out[0].height;
        (
            group_factors(place.x_from_y, header, idx, width, height),
            group_factors(place.b_from_y, header, idx, width, height),
        )
    } else {
        (empty_part(place.x_from_y), empty_part(place.b_from_y))
    };
    GroupSource {
        group_idx: place.group_idx,
        lf_group: place.lf_group,
        lf: parts,
        x_from_y,
        b_from_y,
        passes: place.passes,
        out: place.out,
    }
}

fn empty_part<'b>(grid: &'b Grid<i32>) -> (r: SharedSubgrid<'b, i32>)
    ensures
        r.width == 0 && r.height == 0,
{
    SharedSubgrid { grid, left: 0, top: 0, width: 0, height: 0 }
}

/// Gives each group its parts.
fn place_groups<'b, 'a: 'b, R>(
    places: Vec<GroupPlace<'a, R>>,
    header: &FrameHeader,
    regions: &[Region; 3],
    lf: &'b Vec<Grid<u32>>,
) -> (r: Vec<GroupSource<'b, R>>)
    requires
        lf@.len() == 3,
        forall|i: int|
            0 <= i < places@.len() ==> (#[trigger] places@[i]).wf(*header, regions@),
    ensures
        are_placed(r@, places@, *header, regions@, lf@),
{
    let ghost given = places@;
    let count: usize = places.len();
    let mut places: Vec<GroupPlace<'a, R>> = places;
    let mut r: Vec<GroupSource<'b, R>> = Vec::new();
    let mut i: usize = 0;
    assert(given.skip(0) =~= given);
    while i < count
        invariant
            i <= count,
            count == given.len(),
            lf@.len() == 3,
            forall|k: int|
                0 <= k < given.len() ==> (#[trigger] given[k]).wf(*header, regions@),
            places@ == given.skip(i as int),
            r@.len() == i,
            forall|k: int|
                0 <= k < i ==> is_placed(#[trigger] r@[k], given[k], *header, regions@, lf@),
        decreases count - i,
    {
        let place: GroupPlace<'a, R> = places.remove(0);
        assert(place == given[i as int]);
        assert(places@ =~= given.skip(i + 1));
        r.push(place_group(place, header, regions, lf));
        i = i + 1;
    }
    r
}

/// What a frame is rendered from besides its low frequencies and groups.
pub struct VardctFrame<'a> {
    pub frame_header: &'a FrameHeader,
    pub globals: LfGlobals<'a>,
    /// Tables for the coefficients, none where the frame ends before them.
    pub hf_global: Result<Option<&'a HfGlobal>, Error>,
    /// Low frequencies are not smoothed.
    pub skip_smoothing: bool,
    /// Width and height of the frame in samples of color.
    pub width: u32,
    pub height: u32,
    /// The region that is asked for.
    pub region: Region,
    pub tracker: Option<usize>,
}

/// The arithmetic of rendering.
pub struct RenderKernels<K, D, T, C, S> {
    /// Dequantizes and transforms a block of three channels.
    pub block: K,
    /// Dequantizes a block of a channel.
    pub dequant: D,
    /// Transforms a block of a channel with its low frequencies.
    pub transform: T,
    /// Predicts chroma in the low frequencies.
    pub predict: C,
    /// Smooths low frequencies.
    pub smooth: S,
}

/// What the kernels have to take and give.
pub open spec fn kernels_ready<
    K: Fn(&BlockJob) -> Pixels,
    D: Fn(&PlaneJob) -> Vec<u32>,
    T: Fn(&PlaneJob) -> Vec<u32>,
    C: Fn(&LfSample) -> (u32, u32),
    S: Fn(&Vec<Grid<u32>>) -> Result<Vec<Grid<u32>>, Error>,
>(kernels: RenderKernels<K, D, T, C, S>) -> bool {
    &&& block_kernel_ok(kernels.block)
    &&& plane_kernel_ok(kernels.dequant)
    &&& plane_kernel_ok(kernels.transform)
    &&& forall|s: &LfSample| #[trigger] call_requires(kernels.predict, (s,))
    &&& smoothing_ok(kernels.smooth)
}

impl<'a> VardctFrame<'a> {
    pub open spec fn subsampled(&self) -> bool {
        exists|k: int| 0 <= k < 3 && #[trigger] self.frame_header.jpeg_upsampling@[k] != 0
    }

    /// Sizes can be rounded, and the region can be told in whole groups.
    pub open spec fn wf(&self) -> bool {
        &&& self.width <= u32::MAX - 15
        &&& self.height <= u32::MAX - 15
        &&& self.frame_header.group_dim >= 1
        &&& self.region.alignable(self.frame_header.group_dim as int)
    }

    /// The region that is rendered: that of the groups around the one that is asked for, within the
    /// whole blocks of the frame.
    pub open spec fn rendered(&self) -> Region {
        let up = self.frame_header.jpeg_upsampling@;
        self.region.aligned(self.frame_header.group_dim as int).meet(
            Region {
                left: 0,
                top: 0,
                width: rounded(self.width as int, halves_width(up)) as u32,
                height: rounded(self.height as int, halves_height(up)) as u32,
            },
        )
    }

    /// What the groups share.
    pub open spec fn input(&self, has_lf_frame: bool) -> FrameInput<'a> {
        FrameInput {
            frame_header: self.frame_header,
            lf_vardct: self.globals.chosen(has_lf_frame)->Ok_0.vardct,
            hf_global: self.hf_global->Ok_0,
            region: self.rendered(),
            tracker: self.tracker,
        }
    }

    /// The groups have their places in the frame, with low frequencies of the given sizes.
    pub open spec fn fits<R>(&self, lf: LfSource, places: Seq<GroupPlace<'a, R>>) -> bool {
        let has_lf_frame = lf.lf_frame is Some;
        self.globals.chosen(has_lf_frame) is Ok && self.hf_global is Ok && lf.given() is Some ==> {
            &&& forall|i: int|
                0 <= i < places.len() ==> (#[trigger] places[i]).wf(
                    *self.frame_header,
                    lf.regions@,
                )
            &&& forall|i: int, grids: Seq<Grid<u32>>, source: GroupSource<R>|
                0 <= i < places.len() && same_sizes(grids, lf.given()->Some_0) && #[trigger]
                    is_placed(source, places[i], *self.frame_header, lf.regions@, grids)
                    ==> self.input(has_lf_frame).fits(source)
        }
    }

    /// The low frequencies that rendering takes can be told.
    pub open spec fn lf_tellable(&self) -> bool {
        let dim = self.frame_header.group_dim as int;
        &&& dim % 8 == 0
        &&& lf_part_of(self.region.aligned(dim), self.skip_smoothing).alignable(dim)
    }

    /// The low frequencies that rendering takes, which are to be loaded.
    pub fn needed_lf(&self) -> (r: Region)
        requires
            self.wf(),
            self.lf_tellable(),
        ensures
            ({
                let dim = self.frame_header.group_dim as int;
                let up = self.frame_header.jpeg_upsampling@;
                is_render_region(
                    r,
                    lf_part_of(self.region.aligned(dim), self.skip_smoothing),
                    dim,
                    rounded(self.width as int, halves_width(up)) / 8,
                    rounded(self.height as int, halves_height(up)) / 8,
                )
            }),
    {
        let dim: u32 = self.frame_header.group_dim;
        let (width, height): (u32, u32) = rounded_size(
            self.width,
            self.height,
            &self.frame_header.jpeg_upsampling,
        );
        let aligned: Region = self.region.container_aligned(dim);
        proof {
            lemma_container(self.region, aligned, dim as int);
            lemma_multiple(aligned.left as int, dim as int);
            lemma_multiple(aligned.top as int, dim as int);
        }
        lf_region(aligned, dim, self.skip_smoothing, width, height)
    }
}

/// A multiple of a multiple of eight is one.
proof fn lemma_multiple(n: int, dim: int)
    requires
        dim >= 1,
        dim % 8 == 0,
        n % dim == 0,
    ensures
        n % 8 == 0,
{
    vstd::arithmetic::div_mod::lemma_fundamental_div_mod(n, dim);
    let q = n / dim;
    let k = dim / 8;
    assert(n == 8 * (k * q)) by (nonlinear_arith)
        requires
            n == dim * q,
            dim == 8 * k,
    ;
}

/// The outcome of rendering the groups of a frame.
pub open spec fn groups_outcome<
    R: SymbolSource,
    K: Fn(&BlockJob) -> Pixels,
    D: Fn(&PlaneJob) -> Vec<u32>,
    T: Fn(&PlaneJob) -> Vec<u32>,
    C,
    S,
>(
    kernels: RenderKernels<K, D, T, C, S>,
    input: FrameInput,
    sources: Seq<GroupSource<R>>,
    r: Result<Vec<RenderedGroup>, Error>,
) -> bool {
    match input.failure(sources) {
        Some(e) => r == Err::<Vec<RenderedGroup>, Error>(Error::Frame(e)),
        None => r is Ok && r->Ok_0@.len() == sources.len() && forall|i: int|
            0 <= i < sources.len() ==> source_done(
                kernels.block,
                kernels.dequant,
                kernels.transform,
                input,
                sources[i],
                #[trigger] r->Ok_0@[i],
            ),
    }
}

/// The outcome of rendering a frame: the first error of its global data, its low frequencies and
/// its tables, or what becomes of its groups.
pub open spec fn frame_outcome<
    R: SymbolSource,
    K: Fn(&BlockJob) -> Pixels,
    D: Fn(&PlaneJob) -> Vec<u32>,
    T: Fn(&PlaneJob) -> Vec<u32>,
    C: Fn(&LfSample) -> (u32, u32),
    S: Fn(&Vec<Grid<u32>>) -> Result<Vec<Grid<u32>>, Error>,
>(
    kernels: RenderKernels<K, D, T, C, S>,
    frame: VardctFrame,
    lf: LfSource,
    places: Seq<GroupPlace<R>>,
    r: Result<Vec<RenderedGroup>, Error>,
) -> bool {
    let has_lf_frame = lf.lf_frame is Some;
    match frame.globals.chosen(has_lf_frame) {
        Err(e) => r == Err::<Vec<RenderedGroup>, Error>(e),
        Ok(_) => exists|ready: Result<Vec<Grid<u32>>, Error>|
            {
                &&& #[trigger] lf_ready(
                    kernels.predict,
                    kernels.smooth,
                    frame.subsampled(),
                    frame.skip_smoothing,
                    lf,
                    ready,
                )
                &&& match ready {
                    Err(e) => r == Err::<Vec<RenderedGroup>, Error>(e),
                    Ok(grids) => match frame.hf_global {
                        Err(e) => r == Err::<Vec<RenderedGroup>, Error>(e),
                        Ok(_) => exists|sources: Seq<GroupSource<R>>| #[trigger]
                            are_placed(
                                sources,
                                places,
                                *frame.frame_header,
                                lf.regions@,
                                grids@,
                            ) && groups_outcome(
                                kernels,
                                frame.input(has_lf_frame),
                                sources,
                                r,
                            ),
                    },
                }
            },
    }
}

/// Renders a frame: picks its global data, makes its low frequencies ready, and decodes and renders
/// its groups.
pub fn render_vardct<
    'a,
    R: SymbolSource,
    K: Fn(&BlockJob) -> Pixels,
    D: Fn(&PlaneJob) -> Vec<u32>,
    T: Fn(&PlaneJob) -> Vec<u32>,
    C: Fn(&LfSample) -> (u32, u32),
    S: Fn(&Vec<Grid<u32>>) -> Result<Vec<Grid<u32>>, Error>,
>(
    kernels: &RenderKernels<K, D, T, C, S>,
    frame: &VardctFrame<'a>,
    lf: LfSource,
    places: Vec<GroupPlace<'a, R>>,
) -> (r: Result<Vec<RenderedGroup>, Error>)
    requires
        kernels_ready(*kernels),
        frame.wf(),
        lf.wf(),
        frame.fits(lf, places@),
    ensures
        frame_outcome(*kernels, *frame, lf, places@, r),
{
    let ghost given = lf;
    let ghost all = places@;
    let regions: [Region; 3] = lf.regions;
    let has_lf_frame: bool = lf.lf_frame.is_some();
    let global: LfGlobal<'a> = match frame.globals.pick(has_lf_frame) {
        Err(e) => {
            return Err(e);
        },
        Ok(global) => global,
    };
    let ready: Result<Vec<Grid<u32>>, Error> = prepare_lf(
        &kernels.predict,
        &kernels.smooth,
        is_subsampled(frame.frame_header),
        frame.skip_smoothing,
        lf,
    );
    let ghost shown = ready;
    assert(lf_ready(
        kernels.predict,
        kernels.smooth,
        frame.subsampled(),
        frame.skip_smoothing,
        given,
        shown,
    ));
    let grids: Vec<Grid<u32>> = match ready {
        Err(e) => {
            return Err(e);
        },
        Ok(grids) => grids,
    };
    let hf_global: Option<&'a HfGlobal> = match frame.hf_global {
        Err(e) => {
            return Err(e);
        },
        Ok(hf_global) => hf_global,
    };
    let (width, height): (u32, u32) = rounded_size(
        frame.width,
        frame.height,
        &frame.frame_header.jpeg_upsampling,
    );
    let region: Region = render_region(
        frame.region,
        frame.frame_header.group_dim,
        width,
        height,
    );
    let input = FrameInput {
        frame_header: frame.frame_header,
        lf_vardct: global.vardct,
        hf_global,
        region,
        tracker: frame.tracker,
    };
    let sources = place_groups(places, frame.frame_header, &regions, &grids);
    let ghost placed = sources@;
    proof {
        assert(input == frame.input(has_lf_frame));
        assert forall|i: int| 0 <= i < sources@.len() implies input.fits(#[trigger] sources@[i]) by {
            assert(is_placed(sources@[i], all[i], *frame.frame_header, regions@, grids@));
        }
    }
    let done = render_groups(
        &kernels.block,
        &kernels.dequant,
        &kernels.transform,
        &input,
        sources,
    );
    assert(are_placed(placed, all, *frame.frame_header, regions@, grids@));
    match done {
        Ok(groups) => Ok(groups),
        Err(e) => Err(Error::from(e)),
    }
}

} // verus!
