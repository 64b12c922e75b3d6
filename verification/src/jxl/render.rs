//! Rendering of a transform-coded frame: which parts of it are needed, and how each group is
//! rendered.
use crate::jxl::block::{shifted, shifted_len, ChannelShift};
use crate::jxl::region::{ceil_to, floor_to, Region};
use crate::math::least;
use vstd::prelude::*;

verus! {

// ---- sizes ----
/// Pixels of `n` rounded up to whole blocks, an even number of them where a channel is halved.
pub open spec fn rounded(n: int, halved: bool) -> int {
    let blocks = (n + 7) / 8;
    if halved {
        (blocks + 1) / 2 * 2 * 8
    } else {
        blocks * 8
    }
}

/// Some channel has full width where another may not.
pub open spec fn halves_width(up: Seq<u32>) -> bool {
    exists|k: int| 0 <= k < 3 && (#[trigger] up[k] == 1 || up[k] == 2)
}

pub open spec fn halves_height(up: Seq<u32>) -> bool {
    exists|k: int| 0 <= k < 3 && (#[trigger] up[k] == 1 || up[k] == 3)
}

/// Size of a frame in whole blocks.
pub fn rounded_size(width: u32, height: u32, up: &[u32; 3]) -> (r: (u32, u32))
    requires
        width <= u32::MAX - 15,
        height <= u32::MAX - 15,
    ensures
        r.0 == rounded(width as int, halves_width(up@)),
        r.1 == rounded(height as int, halves_height(up@)),
{
    let shift = ChannelShift::from_jpeg_upsampling(up, 0);
    let bw: u32 = (width + 7) / 8;
    let bh: u32 = (height + 7) / 8;
    (
        if shift.has_h_subsample {
            (bw + 1) / 2 * 2 * 8
        } else {
            bw * 8
        },
        if shift.has_v_subsample {
            (bh + 1) / 2 * 2 * 8
        } else {
            bh * 8
        },
    )
}

/// The whole groups around a region, within the frame.
pub open spec fn is_render_region(r: Region, region: Region, dim: int, w: int, h: int) -> bool {
    forall|x: int, y: int| #[trigger]
        r.has(x, y) == {
            &&& floor_to(region.left as int, dim) <= x
            &&& x < floor_to(region.left as int, dim) + ceil_to(
                region.width + (region.left - floor_to(region.left as int, dim)),
                dim,
            )
            &&& floor_to(region.top as int, dim) <= y
            &&& y < floor_to(region.top as int, dim) + ceil_to(
                region.height + (region.top - floor_to(region.top as int, dim)),
                dim,
            )
            &&& 0 <= x < w
            &&& 0 <= y < h
        }
}

/// The pixels of the groups that a region meets.
pub fn render_region(region: Region, group_dim: u32, width: u32, height: u32) -> (r: Region)
    requires
        group_dim >= 1,
        region.alignable(group_dim as int),
    ensures
        r == region.aligned(group_dim as int).meet(
            Region { left: 0, top: 0, width, height },
        ),
        is_render_region(r, region, group_dim as int, width as int, height as int),
{
    let aligned = region.container_aligned(group_dim);
    aligned.intersection(Region::with_size(width, height))
}

/// The low frequencies of whole groups, with those around them where they are smoothed.
pub open spec fn lf_part_of(aligned: Region, skip_smoothing: bool) -> Region {
    let pad: int = if skip_smoothing {
        0
    } else {
        1
    };
    Region {
        left: (aligned.left as int / 8 - pad) as i32,
        top: (aligned.top as int / 8 - pad) as i32,
        width: (aligned.width as int / 8 + 2 * pad) as u32,
        height: (aligned.height as int / 8 + 2 * pad) as u32,
    }
}

/// The low frequencies that rendering a region takes: its own, and those around it where they are
/// smoothed. `aligned` is the region in whole groups.
pub fn lf_region(
    aligned: Region,
    group_dim: u32,
    skip_smoothing: bool,
    width: u32,
    height: u32,
) -> (r: Region)
    requires
        group_dim >= 1,
        aligned.left as int % 8 == 0,
        aligned.top as int % 8 == 0,
        lf_part_of(aligned, skip_smoothing).alignable(group_dim as int),
    ensures
        is_render_region(
            r,
            lf_part_of(aligned, skip_smoothing),
            group_dim as int,
            width as int / 8,
            height as int / 8,
        ),
{
    let left: i32 = eighth(aligned.left);
    let top: i32 = eighth(aligned.top);
    let part = Region { left, top, width: aligned.width / 8, height: aligned.height / 8 };
    let padded = if skip_smoothing {
        part
    } else {
        part.pad(1)
    };
    render_region(padded, group_dim, width / 8, height / 8)
}

/// An eighth of a multiple of eight.
fn eighth(n: i32) -> (r: i32)
    requires
        n as int % 8 == 0,
    ensures
        r == n as int / 8,
{
    let lifted: u64 = (n as i64 + 0x8000_0000) as u64;
    ((lifted / 8) as i64 - 0x1000_0000) as i32
}

// ---- groups ----
/// A group meets the region that is rendered.
pub open spec fn group_meets(group: Region, rendered: Region) -> bool {
    exists|x: int, y: int| #[trigger] group.has(x, y) && rendered.has(x, y)
}

/// The pixels of a group.
pub open spec fn group_pixels(group_idx: int, per_row: int, dim: int) -> Region {
    Region {
        left: (group_idx % per_row * dim) as i32,
        top: (group_idx / per_row * dim) as i32,
        width: dim as u32,
        height: dim as u32,
    }
}

pub fn group_is_rendered(group_idx: u32, groups_per_row: u32, group_dim: u32, rendered: Region) -> (r:
    bool)
    requires
        groups_per_row >= 1,
        group_idx as int % groups_per_row as int * group_dim <= i32::MAX,
        group_idx as int / groups_per_row as int * group_dim <= i32::MAX,
    ensures
        r == group_meets(
            group_pixels(group_idx as int, groups_per_row as int, group_dim as int),
            rendered,
        ),
{
    let gx: u32 = group_idx % groups_per_row;
    let gy: u32 = group_idx / groups_per_row;
    proof {
        assert(gx * group_dim >= 0) by (nonlinear_arith);
        assert(gy * group_dim >= 0) by (nonlinear_arith);
    }
    let group = Region {
        left: (gx * group_dim) as i32,
        top: (gy * group_dim) as i32,
        width: group_dim,
        height: group_dim,
    };
    let both = group.intersection(rendered);
    !both.is_empty()
}

/// What is there of the data of a pass for a group.
#[derive(Debug, Clone, Copy, PartialEq, Eq, Structural)]
pub struct PassEntry {
    /// The data may end early.
    pub partial: bool,
    pub has_modular: bool,
}

/// How the coefficients of a group are decoded.
#[derive(Debug, Clone, Copy, PartialEq, Eq, Structural)]
pub enum DecodeStep {
    /// There are none, or they are not needed.
    Nothing,
    /// Block by block, with each block rendered at once.
    Direct,
    /// Into slabs.
    Compact,
    /// Into grids.
    Strided,
}

/// A group has coefficients to decode if it has metadata and is rendered. Without subsampling
/// they go into slabs, or block by block if there is one complete pass without a modular-coded
/// image and the transforms are not all the smallest.
pub open spec fn decode_step(
    has_meta: bool,
    rendered: bool,
    subsampled: bool,
    num_passes: int,
    first: Option<PassEntry>,
    all_dct8: bool,
) -> DecodeStep {
    if !has_meta || !rendered {
        DecodeStep::Nothing
    } else if subsampled {
        DecodeStep::Strided
    } else if num_passes == 1 && first == Some(PassEntry { partial: false, has_modular: false })
        && !all_dct8 {
        DecodeStep::Direct
    } else {
        DecodeStep::Compact
    }
}

pub fn choose_decode_step(
    has_meta: bool,
    rendered: bool,
    subsampled: bool,
    num_passes: usize,
    first: Option<PassEntry>,
    all_dct8: bool,
) -> (r: DecodeStep)
    ensures
        r == decode_step(has_meta, rendered, subsampled, num_passes as int, first, all_dct8),
{
    let has_hf: bool = has_meta && rendered;
    let use_compact: bool = has_hf && !subsampled;
    let complete: bool = match first {
        Some(entry) => !entry.partial && !entry.has_modular,
        None => false,
    };
    if use_compact && num_passes == 1 && complete && !all_dct8 {
        DecodeStep::Direct
    } else if use_compact {
        DecodeStep::Compact
    } else if has_hf {
        DecodeStep::Strided
    } else {
        DecodeStep::Nothing
    }
}

/// A part of a grid.
#[derive(Debug, Clone, Copy, PartialEq, Eq, Structural)]
pub struct Area {
    pub left: usize,
    pub top: usize,
    pub width: usize,
    pub height: usize,
}

/// The low frequencies of a channel that a group takes, where those of `region` are at hand.
pub open spec fn lf_area(
    group_idx: int,
    per_row: int,
    dim: int,
    group_width: int,
    group_height: int,
    region: Region,
    shift: ChannelShift,
) -> Area {
    let left = group_idx % per_row * dim / 8 - region.left;
    let top = group_idx / per_row * dim / 8 - region.top;
    Area {
        left: shifted(left, shift.h_subsample) as usize,
        top: shifted(top, shift.v_subsample) as usize,
        width: shifted_len(
            least(region.width - left, (group_width + 7) / 8),
            shift.has_h_subsample,
            shift.h_subsample,
        ) as usize,
        height: shifted_len(
            least(region.height - top, (group_height + 7) / 8),
            shift.has_v_subsample,
            shift.v_subsample,
        ) as usize,
    }
}

pub fn compact_hf_lf_area(
    group_idx: u32,
    groups_per_row: u32,
    group_dim: u32,
    group_width: u32,
    group_height: u32,
    region: Region,
    shift: ChannelShift,
) -> (r: Area)
    requires
        groups_per_row >= 1,
        group_width <= u32::MAX - 7,
        group_height <= u32::MAX - 7,
        group_idx as int % groups_per_row as int * group_dim <= i32::MAX,
        group_idx as int / groups_per_row as int * group_dim <= i32::MAX,
        region.left <= group_idx as int % groups_per_row as int * group_dim / 8
            <= region.left + region.width,
        region.top <= group_idx as int / groups_per_row as int * group_dim / 8
            <= region.top + region.height,
    ensures
        r == lf_area(
            group_idx as int,
            groups_per_row as int,
            group_dim as int,
            group_width as int,
            group_height as int,
            region,
            shift,
        ),
{
    let gx: u32 = group_idx % groups_per_row;
    let gy: u32 = group_idx / groups_per_row;
    proof {
        assert(gx * group_dim >= 0) by (nonlinear_arith);
        assert(gy * group_dim >= 0) by (nonlinear_arith);
    }
    let left: u32 = ((gx * group_dim / 8) as i64 - region.left as i64) as u32;
    let top: u32 = ((gy * group_dim / 8) as i64 - region.top as i64) as u32;
    let w: u32 = (group_width + 7) / 8;
    let h: u32 = (group_height + 7) / 8;
    let width: u32 = if region.width - left < w {
        region.width - left
    } else {
        w
    };
    let height: u32 = if region.height - top < h {
        region.height - top
    } else {
        h
    };
    let (sw, sh) = shift.shift_size(width as usize, height as usize);
    Area {
        left: shift.hshift(left as usize),
        top: shift.vshift(top as usize),
        width: sw,
        height: sh,
    }
}

/// The tiles of chroma prediction of a group within its low-frequency group.
pub open spec fn tile_area(group_idx: int, per_row: int, dim: int, width: int, height: int) -> Area {
    Area {
        left: ((group_idx % per_row) % 8 * dim / 64) as usize,
        top: ((group_idx / per_row) % 8 * dim / 64) as usize,
        width: ((width + 63) / 64) as usize,
        height: ((height + 63) / 64) as usize,
    }
}

pub fn cfl_area(group_idx: u32, groups_per_row: u32, group_dim: u32, width: usize, height: usize) -> (r:
    Area)
    requires
        groups_per_row >= 1,
        group_dim <= 0x2000_0000,
        width <= usize::MAX - 63,
        height <= usize::MAX - 63,
    ensures
        r == tile_area(
            group_idx as int,
            groups_per_row as int,
            group_dim as int,
            width as int,
            height as int,
        ),
{
    let gx: u32 = group_idx % groups_per_row % 8;
    let gy: u32 = group_idx / groups_per_row % 8;
    assert(0 <= gx * group_dim <= 7 * 0x2000_0000) by (nonlinear_arith)
        requires
            gx <= 7,
            group_dim <= 0x2000_0000,
    ;
    assert(0 <= gy * group_dim <= 7 * 0x2000_0000) by (nonlinear_arith)
        requires
            gy <= 7,
            group_dim <= 0x2000_0000,
    ;
    Area {
        left: (gx * group_dim / 64) as usize,
        top: (gy * group_dim / 64) as usize,
        width: (width + 63) / 64,
        height: (height + 63) / 64,
    }
}

/// A tile's columns in a row of `width` pixels: where it starts and how long it is.
pub open spec fn tile_span(width: int, tile: int) -> (int, int) {
    (tile * 64, least(width - tile * 64, 64))
}

pub fn chroma_tile(width: usize, tile: usize) -> (r: (usize, usize))
    requires
        tile * 64 < width,
    ensures
        r.0 == tile_span(width as int, tile as int).0,
        r.1 == tile_span(width as int, tile as int).1,
{
    let start: usize = tile * 64;
    (
        start,
        if width - start < 64 {
            width - start
        } else {
            64
        },
    )
}

/// Every pixel of a row lies in the one tile that its column tells.
pub proof fn lemma_tile_span(width: int, tile: int, x: int)
    requires
        0 <= x < width,
        0 <= tile,
        tile * 64 < width,
    ensures
        (tile_span(width, tile).0 <= x < tile_span(width, tile).0 + tile_span(width, tile).1)
            == (tile == x / 64),
{
}

} // verus!
