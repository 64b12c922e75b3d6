//! Lossless recoding of JPEG files: which coefficients, tables and headers go where.
//!
//! The plan of a recoded file holds everything but the entropy-coded bits; those are made of it by
//! the coder that the caller hands in.
use crate::jxl::jpeg_data::{BlockRow, JpegData};
use crate::math::least;
use crate::text::{decimal, push_decimal};
use vstd::arithmetic::power2::{lemma2_to64, lemma_pow2_unfold, pow2};
use vstd::prelude::*;

verus! {

/// Pixels in a row of a group, and of a group of low frequencies.
pub const GROUP_DIM: usize = 256;

pub const DC_GROUP_DIM: usize = 2048;

/// Blocks in a row of a group, and of a group of low frequencies.
pub const GROUP_DIM_IN_BLOCKS: usize = 32;

pub const DC_GROUP_DIM_IN_BLOCKS: usize = 256;

/// Number of quantization tables of a file.
pub const NUM_QUANT_TABLES: usize = 17;

/// 1 / 2040 as a half-precision number.
pub const QTABLE_DEN_F16: u32 = 0x1004;

/// Why a file cannot be recoded.
#[derive(Debug, Clone, Copy, PartialEq, Eq, Structural)]
pub enum RecodeError {
    /// Recoding requires one or three components.
    ComponentCount(usize),
    /// The entropy coder or the reconstruction data failed.
    Coder,
}

impl RecodeError {
    /// The text of the error.
    pub open spec fn text(self) -> Seq<char> {
        match self {
            RecodeError::ComponentCount(n) => "JPEG reencoding requires 1 or 3 components, got "@
                + decimal(n as nat),
            RecodeError::Coder => "JPEG reencoding failed"@,
        }
    }

    pub fn message(&self) -> (r: String)
        ensures
            r@ == self.text(),
    {
        match self {
            RecodeError::ComponentCount(n) => {
                let mut r: String = "JPEG reencoding requires 1 or 3 components, got ".to_owned();
                push_decimal(&mut r, *n);
                r
            },
            RecodeError::Coder => "JPEG reencoding failed".to_owned(),
        }
    }
}

// ---- sampling ----
/// Sampling factors as a mode: which of the two are even.
pub open spec fn sampling_mode(h: u32, v: u32) -> u8 {
    if h % 2 == 0 {
        if v % 2 == 0 {
            1
        } else {
            2
        }
    } else if v % 2 == 0 {
        3
    } else {
        0
    }
}

pub open spec fn upsampling_of(jpeg: JpegData, map: Seq<usize>) -> Seq<u8> {
    Seq::new(
        3,
        |c: int|
            sampling_mode(
                jpeg.components@[map[c] as int].h_samp_factor,
                jpeg.components@[map[c] as int].v_samp_factor,
            ),
    )
}

/// Sampling modes of the three channels.
pub fn compute_jpeg_upsampling(jpeg: &JpegData, jpeg_c_map: &[usize; 3]) -> (r: [u8; 3])
    requires
        forall|c: int| 0 <= c < 3 ==> #[trigger] jpeg_c_map@[c] < jpeg.components@.len(),
    ensures
        r@ == upsampling_of(*jpeg, jpeg_c_map@),
{
    let mut r: [u8; 3] = [0u8; 3];
    let mut c: usize = 0;
    while c < 3
        invariant
            c <= 3,
            r@.len() == 3,
            forall|k: int| 0 <= k < 3 ==> #[trigger] jpeg_c_map@[k] < jpeg.components@.len(),
            forall|k: int|
                0 <= k < c ==> #[trigger] r@[k] == upsampling_of(*jpeg, jpeg_c_map@)[k],
        decreases 3 - c,
    {
        let i: usize = jpeg_c_map[c];
        assert(jpeg_c_map@[c as int] < jpeg.components@.len());
        let h: bool = jpeg.components[i].h_samp_factor % 2 == 0;
        let v: bool = jpeg.components[i].v_samp_factor % 2 == 0;
        r[c] = match (h, v) {
            (false, false) => 0,
            (true, true) => 1,
            (true, false) => 2,
            (false, true) => 3,
        };
        c = c + 1;
    }
    assert(r@ =~= upsampling_of(*jpeg, jpeg_c_map@));
    r
}

/// Horizontal and vertical factor of a mode, as powers of two.
pub open spec fn h_factor(mode: u8) -> int {
    if mode == 1 || mode == 2 {
        1
    } else {
        0
    }
}

pub open spec fn v_factor(mode: u8) -> int {
    if mode == 1 || mode == 3 {
        1
    } else {
        0
    }
}

/// How often a channel is halved in each direction.
#[derive(Debug, Clone, Copy, PartialEq, Eq, Structural)]
pub struct Shift {
    pub h: usize,
    pub v: usize,
}

pub open spec fn most3(a: int, b: int, c: int) -> int {
    let m = if a > b {
        a
    } else {
        b
    };
    if m > c {
        m
    } else {
        c
    }
}

/// A channel is halved where another has a larger factor.
pub open spec fn shift_of(up: Seq<u8>, c: int) -> Shift {
    Shift {
        h: (most3(h_factor(up[0]), h_factor(up[1]), h_factor(up[2])) - h_factor(
            up[c],
        )) as usize,
        v: (most3(v_factor(up[0]), v_factor(up[1]), v_factor(up[2])) - v_factor(
            up[c],
        )) as usize,
    }
}

pub open spec fn shifts_of(up: Seq<u8>) -> Seq<Shift> {
    Seq::new(3, |c: int| shift_of(up, c))
}

fn mode_factors(mode: u8) -> (r: (usize, usize))
    ensures
        r.0 == h_factor(mode),
        r.1 == v_factor(mode),
        r.0 <= 1,
        r.1 <= 1,
{
    (
        if mode == 1 || mode == 2 {
            1
        } else {
            0
        },
        if mode == 1 || mode == 3 {
            1
        } else {
            0
        },
    )
}

fn most(a: usize, b: usize, c: usize) -> (r: usize)
    ensures
        r == most3(a as int, b as int, c as int),
        r >= a,
        r >= b,
        r >= c,
        r == a || r == b || r == c,
{
    let m: usize = if a > b {
        a
    } else {
        b
    };
    if m > c {
        m
    } else {
        c
    }
}

pub fn channel_shifts(up: &[u8; 3]) -> (r: [Shift; 3])
    ensures
        r@ == shifts_of(up@),
        forall|c: int| 0 <= c < 3 ==> (#[trigger] r@[c]).h <= 1 && r@[c].v <= 1,
{
    let (h0, v0) = mode_factors(up[0]);
    let (h1, v1) = mode_factors(up[1]);
    let (h2, v2) = mode_factors(up[2]);
    let h: usize = most(h0, h1, h2);
    let v: usize = most(v0, v1, v2);
    let r: [Shift; 3] = [
        Shift { h: h - h0, v: v - v0 },
        Shift { h: h - h1, v: v - v1 },
        Shift { h: h - h2, v: v - v2 },
    ];
    assert(r@ =~= shifts_of(up@));
    r
}

// ---- geometry ----
pub open spec fn ceil_div(a: int, b: int) -> int {
    (a + b - 1) / b
}

/// Blocks that cover `n` pixels, an even number where a channel is halved.
pub open spec fn padded_blocks(n: int, halved: bool) -> int {
    if halved {
        ceil_div(n, 16) * 2
    } else {
        ceil_div(n, 8)
    }
}

/// Blocks of a region: from the start up to, but not including, the end.
#[derive(Debug, Clone, Copy, PartialEq, Eq, Structural)]
pub struct BlockRegion {
    pub start_bx: usize,
    pub start_by: usize,
    pub end_bx: usize,
    pub end_by: usize,
}

/// Region of group `i` of groups of `dim` by `dim` blocks, `per_row` in a row.
pub open spec fn region_of(i: int, per_row: int, dim: int, xsize: int, ysize: int) -> BlockRegion {
    let bx = i % per_row * dim;
    let by = i / per_row * dim;
    BlockRegion {
        start_bx: bx as usize,
        start_by: by as usize,
        end_bx: least(bx + dim, xsize) as usize,
        end_by: least(by + dim, ysize) as usize,
    }
}

/// Sizes of a recoded image in blocks and groups.
#[derive(Debug, Clone, Copy, PartialEq, Eq, Structural)]
pub struct RecodeSize {
    pub xsize_blocks: usize,
    pub ysize_blocks: usize,
    pub xsize_groups: usize,
    pub ysize_groups: usize,
    pub xsize_dc_groups: usize,
    pub ysize_dc_groups: usize,
}

pub open spec fn size_of(width: int, height: int, up: Seq<u8>) -> RecodeSize {
    let s = shifts_of(up);
    RecodeSize {
        xsize_blocks: padded_blocks(width, s[0].h + s[1].h + s[2].h > 0) as usize,
        ysize_blocks: padded_blocks(height, s[0].v + s[1].v + s[2].v > 0) as usize,
        xsize_groups: ceil_div(width, GROUP_DIM as int) as usize,
        ysize_groups: ceil_div(height, GROUP_DIM as int) as usize,
        xsize_dc_groups: ceil_div(width, DC_GROUP_DIM as int) as usize,
        ysize_dc_groups: ceil_div(height, DC_GROUP_DIM as int) as usize,
    }
}

pub fn recode_size(width: usize, height: usize, shifts: &[Shift; 3], Ghost(up): Ghost<Seq<u8>>) -> (r:
    RecodeSize)
    requires
        1 <= width <= 0x1_0000,
        1 <= height <= 0x1_0000,
        shifts@ == shifts_of(up),
        forall|c: int| 0 <= c < 3 ==> (#[trigger] shifts@[c]).h <= 1 && shifts@[c].v <= 1,
    ensures
        r == size_of(width as int, height as int, up),
{
    assert(shifts@[0].h <= 1 && shifts@[1].h <= 1 && shifts@[2].h <= 1);
    assert(shifts@[0].v <= 1 && shifts@[1].v <= 1 && shifts@[2].v <= 1);
    let h: bool = shifts[0].h + shifts[1].h + shifts[2].h > 0;
    let v: bool = shifts[0].v + shifts[1].v + shifts[2].v > 0;
    RecodeSize {
        xsize_blocks: if h {
            (width + 15) / 16 * 2
        } else {
            (width + 7) / 8
        },
        ysize_blocks: if v {
            (height + 15) / 16 * 2
        } else {
            (height + 7) / 8
        },
        xsize_groups: (width + 255) / 256,
        ysize_groups: (height + 255) / 256,
        xsize_dc_groups: (width + 2047) / 2048,
        ysize_dc_groups: (height + 2047) / 2048,
    }
}

/// Multiples of `2^shift` in a range, for a shift of 0 or 1.
pub open spec fn aligned_count(start: int, end: int, shift: int) -> int {
    if start >= end {
        0
    } else if shift == 0 {
        end - start
    } else {
        (end + 1) / 2 - (start + 1) / 2
    }
}

pub fn aligned_count_in_range(start: usize, end: usize, shift: usize) -> (r: usize)
    requires
        shift <= 1,
        end < usize::MAX,
    ensures
        r == aligned_count(start as int, end as int, shift as int),
{
    if start >= end {
        return 0;
    }
    if shift == 0 {
        return end - start;
    }
    let first: usize = (start + 1) / 2 * 2;
    if first >= end {
        0
    } else {
        (end - 1 - first) / 2 + 1
    }
}

/// Symbols that are expected of the coefficients of a group.
pub open spec fn symbols_expected(region: BlockRegion, shifts: Seq<Shift>) -> int {
    24 * (aligned_blocks(region, shifts[0]) + aligned_blocks(region, shifts[1]) + aligned_blocks(
        region,
        shifts[2],
    ))
}

/// Room for the coefficients of a group: 24 symbols for each block of each channel.
pub fn estimate_jpeg_ac_tokens_for_group(region: &BlockRegion, shifts: &[Shift; 3]) -> (r: usize)
    requires
        region.end_bx <= 0x1_0000,
        region.end_by <= 0x1_0000,
        region.end_bx - region.start_bx <= 32,
        region.end_by - region.start_by <= 32,
        forall|c: int| 0 <= c < 3 ==> (#[trigger] shifts@[c]).h <= 1 && shifts@[c].v <= 1,
    ensures
        r == symbols_expected(*region, shifts@),
{
    assert(shifts@[0].h <= 1 && shifts@[1].h <= 1 && shifts@[2].h <= 1);
    let a: usize = count_blocks(region, shifts[0]);
    let b: usize = count_blocks(region, shifts[1]);
    let c: usize = count_blocks(region, shifts[2]);
    (a + b + c) * 24
}

/// Blocks of a channel in a region.
pub open spec fn aligned_blocks(region: BlockRegion, s: Shift) -> int {
    aligned_count(region.start_bx as int, region.end_bx as int, s.h as int) * aligned_count(
        region.start_by as int,
        region.end_by as int,
        s.v as int,
    )
}

fn count_blocks(region: &BlockRegion, s: Shift) -> (r: usize)
    requires
        region.end_bx <= 0x1_0000,
        region.end_by <= 0x1_0000,
        region.end_bx - region.start_bx <= 32,
        region.end_by - region.start_by <= 32,
        s.h <= 1,
        s.v <= 1,
    ensures
        r == aligned_blocks(*region, s),
        r <= 1024,
{
    let w: usize = aligned_count_in_range(region.start_bx, region.end_bx, s.h);
    let h: usize = aligned_count_in_range(region.start_by, region.end_by, s.v);
    assert(w * h <= 1024) by (nonlinear_arith)
        requires
            w <= 32,
            h <= 32,
    ;
    w * h
}

// ---- blocks of a group ----
/// A block whose coefficients are coded: its channel, its position there, its number of nonzero
/// coefficients, and the number that its neighbours suggest.
#[derive(Debug, Clone, Copy, PartialEq, Eq, Structural)]
pub struct AcBlock {
    pub channel: usize,
    pub bx: usize,
    pub by: usize,
    pub nonzeros: u8,
    pub predicted: u16,
}

/// `n` halved if there is a shift.
pub open spec fn halved(n: int, shift: usize) -> int {
    if shift > 0 {
        n / 2
    } else {
        n
    }
}

/// Channels in coding order: luma, then chroma.
pub open spec fn coded_channel(k: int) -> int {
    if k == 0 {
        1
    } else if k == 1 {
        0
    } else {
        2
    }
}

pub open spec fn nz_at(channels: Seq<Vec<BlockRow>>, c: int, bx: int, by: int) -> int {
    channels[c]@[by].nz@[bx] as int
}

/// A block is skipped where its channel is halved and has no block.
pub open spec fn off_grid(s: Shift, bx: int, by: int) -> bool {
    (s.h > 0 && bx % 2 == 1) || (s.v > 0 && by % 2 == 1)
}

/// The number of nonzero coefficients that the neighbours within the group suggest.
pub open spec fn predicted_nz(
    channels: Seq<Vec<BlockRow>>,
    c: int,
    s: Shift,
    region: BlockRegion,
    bx: int,
    by: int,
) -> int {
    let first_x = halved(region.start_bx as int, s.h);
    let first_y = halved(region.start_by as int, s.v);
    if bx == first_x {
        if by > first_y {
            nz_at(channels, c, bx, by - 1)
        } else {
            32
        }
    } else if by > first_y {
        (nz_at(channels, c, bx, by - 1) + nz_at(channels, c, bx - 1, by) + 1) / 2
    } else {
        nz_at(channels, c, bx - 1, by)
    }
}

pub open spec fn block_entry(
    channels: Seq<Vec<BlockRow>>,
    shifts: Seq<Shift>,
    region: BlockRegion,
    bx: int,
    by: int,
    k: int,
) -> Seq<AcBlock> {
    let c = coded_channel(k);
    let s = shifts[c];
    if off_grid(s, bx, by) {
        Seq::empty()
    } else {
        let x = halved(bx, s.h);
        let y = halved(by, s.v);
        seq![
            AcBlock {
                channel: c as usize,
                bx: x as usize,
                by: y as usize,
                nonzeros: nz_at(channels, c, x, y) as u8,
                predicted: predicted_nz(channels, c, s, region, x, y) as u16,
            },
        ]
    }
}

/// The blocks of a group from column `bx` of row `by` and step `k` on.
pub open spec fn blocks_from(
    channels: Seq<Vec<BlockRow>>,
    shifts: Seq<Shift>,
    region: BlockRegion,
    bx: int,
    by: int,
    k: int,
) -> Seq<AcBlock>
    decreases region.end_by - by, region.end_bx - bx, 3 - k,
{
    if by >= region.end_by {
        Seq::empty()
    } else if bx >= region.end_bx {
        blocks_from(channels, shifts, region, region.start_bx as int, by + 1, 0)
    } else if k >= 3 {
        blocks_from(channels, shifts, region, bx + 1, by, 0)
    } else {
        block_entry(channels, shifts, region, bx, by, k) + blocks_from(
            channels,
            shifts,
            region,
            bx,
            by,
            k + 1,
        )
    }
}

/// The blocks of a group in coding order.
pub open spec fn group_blocks(
    channels: Seq<Vec<BlockRow>>,
    shifts: Seq<Shift>,
    region: BlockRegion,
) -> Seq<AcBlock> {
    blocks_from(channels, shifts, region, region.start_bx as int, region.start_by as int, 0)
}

/// Every channel has the blocks of an image of the given size.
pub open spec fn channels_cover(
    channels: Seq<Vec<BlockRow>>,
    shifts: Seq<Shift>,
    xsize: int,
    ysize: int,
) -> bool {
    &&& channels.len() == 3
    &&& shifts.len() == 3
    &&& forall|c: int|
        0 <= c < 3 ==> (#[trigger] shifts[c]).h <= 1 && shifts[c].v <= 1 && (shifts[c].h == 1
            ==> xsize % 2 == 0) && (shifts[c].v == 1 ==> ysize % 2 == 0)
    &&& forall|c: int, by: int|
        #![trigger channels[c]@[by]]
        0 <= c < 3 && 0 <= by < halved(ysize, shifts[c].v) ==> by < channels[c]@.len()
            && channels[c]@[by].nz@.len() >= halved(xsize, shifts[c].h)
}

fn predict(
    rows: &Vec<BlockRow>,
    s: Shift,
    region: &BlockRegion,
    bx: usize,
    by: usize,
    Ghost(channels): Ghost<Seq<Vec<BlockRow>>>,
    Ghost(c): Ghost<int>,
) -> (r: u16)
    requires
        0 <= c < channels.len(),
        channels[c] == *rows,
        by < rows@.len(),
        bx < rows@[by as int].nz@.len(),
        bx >= halved(region.start_bx as int, s.h),
        by > halved(region.start_by as int, s.v) ==> bx < rows@[by - 1].nz@.len(),
    ensures
        r == predicted_nz(channels, c, s, *region, bx as int, by as int),
{
    let first_x: usize = if s.h > 0 {
        region.start_bx / 2
    } else {
        region.start_bx
    };
    let first_y: usize = if s.v > 0 {
        region.start_by / 2
    } else {
        region.start_by
    };
    if bx == first_x {
        if by > first_y {
            rows[by - 1].nz[bx] as u16
        } else {
            32
        }
    } else {
        let left: u16 = rows[by].nz[bx - 1] as u16;
        if by > first_y {
            (rows[by - 1].nz[bx] as u16 + left + 1) / 2
        } else {
            left
        }
    }
}

/// Lists the blocks of a group.
pub fn list_blocks(channels: &Vec<Vec<BlockRow>>, shifts: &[Shift; 3], region: &BlockRegion, xsize: usize, ysize: usize) -> (r:
    Vec<AcBlock>)
    requires
        channels_cover(channels@, shifts@, xsize as int, ysize as int),
        region.end_bx <= xsize,
        region.end_by <= ysize,
        region.start_bx <= region.end_bx,
    ensures
        r@ == group_blocks(channels@, shifts@, *region),
{
    let mut r: Vec<AcBlock> = Vec::new();
    let mut by: usize = region.start_by;
    let mut bx: usize = region.start_bx;
    let mut k: usize = 0;
    let ghost goal = group_blocks(channels@, shifts@, *region);
    assert(r@ + goal =~= goal);
    while by < region.end_by
        invariant
            channels_cover(channels@, shifts@, xsize as int, ysize as int),
            region.end_bx <= xsize,
            region.end_by <= ysize,
            region.start_bx <= bx <= region.end_bx,
            region.start_by <= by,
            k <= 3,
            r@ + blocks_from(channels@, shifts@, *region, bx as int, by as int, k as int) == goal,
        decreases region.end_by - by, region.end_bx - bx, 3 - k,
    {
        if bx >= region.end_bx {
            bx = region.start_bx;
            by = by + 1;
            k = 0;
        } else if k >= 3 {
            bx = bx + 1;
            k = 0;
        } else {
            let c: usize = if k == 0 {
                1
            } else if k == 1 {
                0
            } else {
                2
            };
            let s: Shift = shifts[c];
            let ghost before = r@;
            let ghost entry = block_entry(
                channels@,
                shifts@,
                *region,
                bx as int,
                by as int,
                k as int,
            );
            let ghost rest = blocks_from(
                channels@,
                shifts@,
                *region,
                bx as int,
                by as int,
                k + 1,
            );
            assert(shifts@[c as int].h <= 1 && shifts@[c as int].v <= 1);
            if !((s.h > 0 && bx % 2 == 1) || (s.v > 0 && by % 2 == 1)) {
                let x: usize = if s.h > 0 {
                    bx / 2
                } else {
                    bx
                };
                let y: usize = if s.v > 0 {
                    by / 2
                } else {
                    by
                };
                assert(channels@[c as int]@[y as int].nz@.len() >= halved(xsize as int, s.h));
                if y > 0 {
                    assert(channels@[c as int]@[y - 1].nz@.len() >= halved(xsize as int, s.h));
                }
                let predicted: u16 = predict(
                    &channels[c],
                    s,
                    region,
                    x,
                    y,
                    Ghost(channels@),
                    Ghost(c as int),
                );
                let block = AcBlock {
                    channel: c,
                    bx: x,
                    by: y,
                    nonzeros: channels[c][y].nz[x],
                    predicted,
                };
                r.push(block);
                assert(entry =~= seq![block]);
                assert(before + (entry + rest) =~= r@ + rest);
            } else {
                assert(before + (entry + rest) =~= r@ + rest);
            }
            k = k + 1;
        }
    }
    assert(r@ + Seq::<AcBlock>::empty() =~= r@);
    r
}

// ---- sections ----
/// Which of the two entropy codes of a frame.
#[derive(Debug, Clone, Copy, PartialEq, Eq, Structural)]
pub enum CodeKind {
    LowFrequencies,
    Coefficients,
}

/// One step in writing a section.
#[derive(Debug, Clone, Copy, PartialEq, Eq, Structural)]
pub enum SectionOp {
    Bits { n: u32, value: u32 },
    /// The low-frequency step of a channel: the given step times 128 / 2040, in half precision.
    DcQuant(i32),
    QuantScales { global_scale: u32, quant_dc: u32 },
    BlockContextMap,
    ContextTree { num_dc_groups: usize },
    EntropyCode(CodeKind),
    /// Histogram and tokens of the tree with one leaf that predicts by gradient.
    GradientTreeHistogram,
    GradientTreeTokens,
    /// Header and tokens of the residuals of the quantization tables.
    ResidualHeader,
    ResidualTokens,
}

pub open spec fn bits(n: u32, value: u32) -> SectionOp {
    SectionOp::Bits { n, value }
}

/// The section with the low-frequency steps, and the contexts and code of low frequencies.
/// Chroma takes nothing from luma.
pub open spec fn dc_global_ops(dc_quant: Seq<i32>, num_dc_groups: usize) -> Seq<SectionOp> {
    seq![
        bits(1, 0),
        SectionOp::DcQuant(dc_quant[0]),
        SectionOp::DcQuant(dc_quant[1]),
        SectionOp::DcQuant(dc_quant[2]),
        SectionOp::QuantScales { global_scale: 65536, quant_dc: 1 },
        bits(1, 0),
        bits(16, 0),
        SectionOp::BlockContextMap,
        bits(1, 0),
        bits(2, 0),
        bits(16, 0),
        bits(16, 0),
        bits(8, 128),
        bits(8, 128),
        SectionOp::ContextTree { num_dc_groups },
        bits(1, 0),
        SectionOp::EntropyCode(CodeKind::LowFrequencies),
    ]
}

pub fn write_dc_global_jpeg(dc_quant: &[i32; 3], num_dc_groups: usize) -> (r: Vec<SectionOp>)
    ensures
        r@ == dc_global_ops(dc_quant@, num_dc_groups),
{
    let mut r: Vec<SectionOp> = Vec::new();
    r.push(SectionOp::Bits { n: 1, value: 0 });
    r.push(SectionOp::DcQuant(dc_quant[0]));
    r.push(SectionOp::DcQuant(dc_quant[1]));
    r.push(SectionOp::DcQuant(dc_quant[2]));
    r.push(SectionOp::QuantScales { global_scale: 65536, quant_dc: 1 });
    r.push(SectionOp::Bits { n: 1, value: 0 });
    r.push(SectionOp::Bits { n: 16, value: 0 });
    r.push(SectionOp::BlockContextMap);
    r.push(SectionOp::Bits { n: 1, value: 0 });
    r.push(SectionOp::Bits { n: 2, value: 0 });
    r.push(SectionOp::Bits { n: 16, value: 0 });
    r.push(SectionOp::Bits { n: 16, value: 0 });
    r.push(SectionOp::Bits { n: 8, value: 128 });
    r.push(SectionOp::Bits { n: 8, value: 128 });
    r.push(SectionOp::ContextTree { num_dc_groups });
    r.push(SectionOp::Bits { n: 1, value: 0 });
    r.push(SectionOp::EntropyCode(CodeKind::LowFrequencies));
    assert(r@ =~= dc_global_ops(dc_quant@, num_dc_groups));
    r
}

/// The quantization tables as a small image without a global tree and transforms.
pub open spec fn raw_table_ops() -> Seq<SectionOp> {
    seq![
        bits(1, 0),
        bits(1, 1),
        bits(2, 0),
        SectionOp::GradientTreeHistogram,
        SectionOp::GradientTreeTokens,
        SectionOp::ResidualHeader,
        SectionOp::ResidualTokens,
    ]
}

fn write_raw_quant_table_modular(r: &mut Vec<SectionOp>)
    ensures
        final(r)@ == old(r)@ + raw_table_ops(),
{
    let ghost start = r@;
    r.push(SectionOp::Bits { n: 1, value: 0 });
    r.push(SectionOp::Bits { n: 1, value: 1 });
    r.push(SectionOp::Bits { n: 2, value: 0 });
    r.push(SectionOp::GradientTreeHistogram);
    r.push(SectionOp::GradientTreeTokens);
    r.push(SectionOp::ResidualHeader);
    r.push(SectionOp::ResidualTokens);
    assert(r@ =~= start + raw_table_ops());
}

/// The first table is raw, the others are the library's.
pub open spec fn matrix_ops() -> Seq<SectionOp> {
    seq![bits(3, 7), bits(16, QTABLE_DEN_F16)] + raw_table_ops() + Seq::new(
        (NUM_QUANT_TABLES - 1) as nat,
        |k: int| bits(3, 0),
    )
}

fn write_quant_matrices_jpeg(r: &mut Vec<SectionOp>)
    ensures
        final(r)@ == old(r)@ + matrix_ops(),
{
    let ghost start = r@;
    r.push(SectionOp::Bits { n: 3, value: 7 });
    r.push(SectionOp::Bits { n: 16, value: QTABLE_DEN_F16 });
    write_raw_quant_table_modular(r);
    let ghost head = r@;
    assert(head =~= start + (seq![bits(3, 7), bits(16, QTABLE_DEN_F16)] + raw_table_ops()));
    let mut i: usize = 1;
    while i < NUM_QUANT_TABLES
        invariant
            1 <= i <= NUM_QUANT_TABLES,
            r@ == head + Seq::new((i - 1) as nat, |k: int| bits(3, 0)),
        decreases NUM_QUANT_TABLES - i,
    {
        r.push(SectionOp::Bits { n: 3, value: 0 });
        i = i + 1;
        assert(r@ =~= head + Seq::new((i - 1) as nat, |k: int| bits(3, 0)));
    }
    assert(r@ =~= start + matrix_ops());
}

/// Smallest `k` with `2^k >= n`.
pub open spec fn log2_up(n: int, k: int) -> int
    decreases 64 - k,
{
    if k >= 64 || pow2(k as nat) >= n {
        k
    } else {
        log2_up(n, k + 1)
    }
}

pub fn ceil_log2_nonzero(n: usize) -> (r: u32)
    requires
        1 <= n <= 0x8000_0000,
    ensures
        r == log2_up(n as int, 0),
        r <= 31,
{
    let mut k: u32 = 0;
    let mut unit: u64 = 1;
    proof {
        lemma2_to64();
    }
    while unit < n as u64
        invariant
            1 <= n <= 0x8000_0000,
            k <= 31,
            unit == pow2(k as nat),
            log2_up(n as int, 0) == log2_up(n as int, k as int),
        decreases 32 - k,
    {
        proof {
            lemma2_to64();
            if k == 31 {
                assert(unit == 0x8000_0000);
            }
            crate::math::lemma_pow2_mono(k as nat, 30);
            lemma_pow2_unfold((k + 1) as nat);
        }
        unit = unit * 2;
        k = k + 1;
    }
    k
}

/// The section with the quantization tables and the code of the coefficients.
pub open spec fn ac_global_ops(num_groups: int) -> Seq<SectionOp> {
    let n = log2_up(num_groups, 0);
    let histograms: Seq<SectionOp> = if n != 0 {
        seq![bits(n as u32, 0)]
    } else {
        Seq::empty()
    };
    seq![bits(1, 0)] + matrix_ops() + histograms + seq![
        bits(2, 2),
        bits(1, 0),
        SectionOp::EntropyCode(CodeKind::Coefficients),
    ]
}

pub fn write_ac_global_jpeg(num_groups: usize) -> (r: Vec<SectionOp>)
    requires
        1 <= num_groups <= 0x8000_0000,
    ensures
        r@ == ac_global_ops(num_groups as int),
{
    let mut r: Vec<SectionOp> = Vec::new();
    r.push(SectionOp::Bits { n: 1, value: 0 });
    write_quant_matrices_jpeg(&mut r);
    let n: u32 = ceil_log2_nonzero(num_groups);
    if n != 0 {
        r.push(SectionOp::Bits { n, value: 0 });
    }
    r.push(SectionOp::Bits { n: 2, value: 2 });
    r.push(SectionOp::Bits { n: 1, value: 0 });
    r.push(SectionOp::EntropyCode(CodeKind::Coefficients));
    assert(r@ =~= ac_global_ops(num_groups as int));
    r
}

} // verus!
