//! A recoded file dequantizes to what the file dequantizes to.
use crate::jxl::block::channel_shift;
use crate::jxl::hf_coeff::{bits_below, channel_of, predicted};
use crate::jxl::jpeg_data::{
    ac_block, block_base, component_map, is_component, is_row, is_zero_component, is_zero_row,
    nonzeros, BlockRow, JpegComponentType, JpegData,
};
use crate::jxl::jpeg_encode::{
    file_header, is_frame_header, is_plan, jpeg_ok, jpeg_upsampling, profile_view, raw_tables,
    RecodePlan,
};
use crate::jxl::jpeg_recode::{
    aligned_blocks, aligned_count, ceil_div, coded_channel, h_factor, log2_up, padded_blocks,
    predicted_nz, sampling_mode, shift_of, size_of, symbols_expected, upsampling_of, v_factor,
    BlockRegion, SectionOp, Shift,
};
use crate::jxl::pass_group::lf_channel;
use vstd::arithmetic::power2::{lemma2_to64, pow2};
use vstd::prelude::*;

verus! {

/// The component that a channel is coded from: of a picture in luma and color differences, the first
/// channel holds the blue difference, the second luma and the third the red difference; of others
/// each channel holds the component of its number; grey is held by the second channel.
pub open spec fn source_component(jpeg: JpegData, c: int) -> int {
    if jpeg.components@.len() == 1 {
        0
    } else if jpeg.component_type == JpegComponentType::YCbCr {
        if c == 0 {
            1
        } else if c == 1 {
            0
        } else {
            2
        }
    } else {
        c
    }
}

/// The channel holds a component of the file; the outer channels of a grey picture hold none.
pub open spec fn holds_component(jpeg: JpegData, c: int) -> bool {
    jpeg.components@.len() == 3 || (jpeg.components@.len() == 1 && c == 1)
}

/// Rows and columns are exchanged in coefficients and tables alike: the coefficient in column `x`
/// and row `y` of a block of the file, times the file's own step for it, is coefficient `8 x + y`
/// of the block in the plan, times entry `8 x + y` of the channel's table there.
pub proof fn lemma_dequantized_alike(
    plan: RecodePlan,
    jpeg: JpegData,
    c: int,
    bx: int,
    by: int,
    x: int,
    y: int,
)
    requires
        is_plan(plan, jpeg),
        jpeg_ok(jpeg),
        holds_component(jpeg, c),
        0 <= c < 3,
        0 <= x < 8,
        0 <= y < 8,
        ({
            let comp = jpeg.components@[source_component(jpeg, c)];
            0 <= bx < comp.width_in_blocks && 0 <= by < comp.height_in_blocks
        }),
    ensures
        ({
            let comp = jpeg.components@[source_component(jpeg, c)];
            let table = jpeg.quant@[comp.quant_idx as int].values@;
            let own = comp.coeffs@[64 * (by * comp.width_in_blocks + bx) + 8 * y + x] as int;
            let row = plan.channels@[c]@[by];
            let entry = plan.raw_qtables@[64 * c + 8 * x + y];
            &&& by < plan.channels@[c]@.len()
            &&& entry == table[8 * y + x]
            &&& (x, y) != (0int, 0int) ==> row.ac@[bx]@[8 * x + y] == own
            &&& (x, y) != (0int, 0int) ==> row.ac@[bx]@[8 * x + y] * entry == own * table[8 * y + x]
            &&& (x, y) == (0int, 0int) ==> row.dc@[bx] == own && row.ac@[bx]@[0] == 0
        }),
{
    let comp = jpeg.components@[source_component(jpeg, c)];
    let rows = plan.channels@[c]@;
    assert(is_component(rows, comp));
    assert(is_row(rows[by], comp.coeffs@, comp.width_in_blocks as int, by));
    let base = (by * comp.width_in_blocks + bx) * 64;
    assert(rows[by].dc@[bx] == comp.coeffs@[base]);
    assert((8 * x + y) % 8 == y && (8 * x + y) / 8 == x);
    assert((64 * c + 8 * x + y) / 64 == c && (64 * c + 8 * x + y) % 64 == 8 * x + y);
    assert(plan.raw_qtables@ == raw_tables(
        jpeg,
        component_map(
            jpeg.components@.len() as int,
            jpeg.component_type,
        ),
    ));
}

/// The lowest coefficient of a block keeps its step: the section of low frequencies names, for each
/// channel in turn, the file's own step for it.
pub proof fn lemma_lowest_step(plan: RecodePlan, jpeg: JpegData, c: int)
    requires
        is_plan(plan, jpeg),
        jpeg_ok(jpeg),
        jpeg.components@.len() == 1 || jpeg.components@.len() == 3,
        0 <= c < 3,
    ensures
        ({
            let comp = jpeg.components@[source_component(jpeg, c)];
            plan.dc_global@[1 + c] == SectionOp::DcQuant(
                jpeg.quant@[comp.quant_idx as int].values@[0],
            )
        }),
{
}

/// The outer channels of a grey picture are empty.
pub proof fn lemma_grey_alone(plan: RecodePlan, jpeg: JpegData, c: int, bx: int, by: int, k: int)
    requires
        is_plan(plan, jpeg),
        jpeg.components@.len() == 1,
        c == 0 || c == 2,
        0 <= bx < jpeg.components@[0].width_in_blocks,
        0 <= by < jpeg.components@[0].height_in_blocks,
        0 <= k < 64,
    ensures
        plan.channels@[c]@[by].dc@[bx] == 0,
        plan.channels@[c]@[by].ac@[bx]@[k] == 0,
        plan.channels@[c]@[by].nz@[bx] == 0,
{
    let comp = jpeg.components@[0];
    let rows = plan.channels@[c]@;
    assert(is_zero_component(
        rows,
        comp.width_in_blocks as int,
        comp.height_in_blocks as int,
    ));
    assert(is_zero_row(rows[by], comp.width_in_blocks as int));
    assert(rows[by].dc@[bx] == 0);
}

/// The number of nonzero coefficients of a block tells whether there are any, and is at most 63.
pub proof fn lemma_nonzeros_told(plan: RecodePlan, jpeg: JpegData, c: int, bx: int, by: int)
    requires
        is_plan(plan, jpeg),
        jpeg_ok(jpeg),
        holds_component(jpeg, c),
        0 <= c < 3,
        ({
            let comp = jpeg.components@[source_component(jpeg, c)];
            0 <= bx < comp.width_in_blocks && 0 <= by < comp.height_in_blocks
        }),
    ensures
        ({
            let row = plan.channels@[c]@[by];
            &&& row.nz@[bx] <= 63
            &&& row.nz@[bx] == 0 <==> forall|k: int|
                0 <= k < 64 ==> #[trigger] row.ac@[bx]@[k] == 0
        }),
{
    let comp = jpeg.components@[source_component(jpeg, c)];
    let rows = plan.channels@[c]@;
    assert(is_component(rows, comp));
    assert(is_row(rows[by], comp.coeffs@, comp.width_in_blocks as int, by));
    let base = block_base(comp.width_in_blocks as int, bx, by);
    assert(rows[by].dc@[bx] == comp.coeffs@[base]);
    let s = rows[by].ac@[bx]@;
    assert(s == ac_block(comp.coeffs@, base));
    assert(s[0] == 0);
    lemma_count(s, 64);
}

proof fn lemma_count(s: Seq<i32>, n: nat)
    requires
        n <= s.len(),
        n >= 1,
        s[0] == 0,
    ensures
        0 <= nonzeros(s, n) <= n - 1,
        nonzeros(s, n) == 0 <==> forall|k: int|
            0 <= k < n ==> #[trigger] s[k] == 0,
    decreases n,
{
    if n > 1 {
        lemma_count(s, (n - 1) as nat);
        if nonzeros(s, n) == 0 {
            assert forall|k: int| 0 <= k < n implies #[trigger] s[k] == 0 by {
                if k == n - 1 {
                }
            }
        } else {
            if s[n - 1] != 0 {
                assert(!(forall|k: int| 0 <= k < n ==> #[trigger] s[k] == 0));
            }
        }
    } else {
        reveal_with_fuel(nonzeros, 2);
    }
}

/// Where sampling factors are 1 or 2, a channel is halved as often as the most finely sampled one has
/// twice its samples.
pub proof fn lemma_shift_is_sampling(jpeg: JpegData, map: Seq<usize>, c: int)
    requires
        map.len() == 3,
        0 <= c < 3,
        forall|k: int|
            0 <= k < 3 ==> {
                let comp = jpeg.components@[#[trigger] map[k] as int];
                1 <= comp.h_samp_factor <= 2 && 1 <= comp.v_samp_factor <= 2
            },
    ensures
        ({
            let s = shift_of(upsampling_of(jpeg, map), c);
            let a = jpeg.components@[map[0] as int];
            let b = jpeg.components@[map[1] as int];
            let d = jpeg.components@[map[2] as int];
            let own = jpeg.components@[map[c] as int];
            let h = most(most(a.h_samp_factor as int, b.h_samp_factor as int), d.h_samp_factor as int);
            let v = most(most(a.v_samp_factor as int, b.v_samp_factor as int), d.v_samp_factor as int);
            &&& s.h <= 1 && s.v <= 1
            &&& h == if s.h == 1 {
                2 * own.h_samp_factor
            } else {
                own.h_samp_factor as int
            }
            &&& v == if s.v == 1 {
                2 * own.v_samp_factor
            } else {
                own.v_samp_factor as int
            }
        }),
{
    let up = upsampling_of(jpeg, map);
    let a = jpeg.components@[map[0] as int];
    let b = jpeg.components@[map[1] as int];
    let d = jpeg.components@[map[2] as int];
    assert(1 <= a.h_samp_factor <= 2 && 1 <= b.h_samp_factor <= 2 && 1 <= d.h_samp_factor <= 2);
    assert(1 <= a.v_samp_factor <= 2 && 1 <= b.v_samp_factor <= 2 && 1 <= d.v_samp_factor <= 2);
    assert(up[0] == sampling_mode(a.h_samp_factor, a.v_samp_factor));
    assert(up[1] == sampling_mode(b.h_samp_factor, b.v_samp_factor));
    assert(up[2] == sampling_mode(d.h_samp_factor, d.v_samp_factor));
    if c == 0 {
        assert(shift_of(up, 0).h <= 1 && shift_of(up, 0).v <= 1);
    } else if c == 1 {
        assert(shift_of(up, 1).h <= 1 && shift_of(up, 1).v <= 1);
    } else {
        assert(c == 2);
        assert(shift_of(up, 2).h <= 1 && shift_of(up, 2).v <= 1);
    }
}

pub open spec fn most(a: int, b: int) -> int {
    if a > b {
        a
    } else {
        b
    }
}

/// Blocks and groups cover the picture, and no row or column of them lies wholly outside of it but
/// for one of blocks that makes their number even.
pub proof fn lemma_sizes_cover(width: int, height: int, up: Seq<u8>)
    requires
        1 <= width <= 0x1_0000,
        1 <= height <= 0x1_0000,
    ensures
        ({
            let s = size_of(width, height, up);
            &&& width <= 8 * s.xsize_blocks < width + 16
            &&& height <= 8 * s.ysize_blocks < height + 16
            &&& width <= 256 * s.xsize_groups < width + 256
            &&& height <= 256 * s.ysize_groups < height + 256
            &&& width <= 2048 * s.xsize_dc_groups < width + 2048
            &&& height <= 2048 * s.ysize_dc_groups < height + 2048
        }),
{
}

/// The number that neighbours suggest is 32 for the first block of a group; along its upper and left
/// edge it is that of the one neighbour; elsewhere it is the mean of both, rounded up.
pub proof fn lemma_suggested(
    channels: Seq<Vec<BlockRow>>,
    c: int,
    s: Shift,
    region: BlockRegion,
    bx: int,
    by: int,
)
    requires
        s.h == 0,
        s.v == 0,
        region.start_bx <= bx,
        region.start_by <= by,
    ensures
        ({
            let p = predicted_nz(channels, c, s, region, bx, by);
            let left = channels[c]@[by].nz@[bx - 1] as int;
            let above = channels[c]@[by - 1].nz@[bx] as int;
            &&& bx == region.start_bx && by == region.start_by ==> p == 32
            &&& bx == region.start_bx && by > region.start_by ==> p == above
            &&& bx > region.start_bx && by == region.start_by ==> p == left
            &&& bx > region.start_bx && by > region.start_by ==> 0 <= 2 * p - (left + above) <= 1
        }),
{
}

/// Of the blocks of a region those are counted that a channel has: every one, or every other one
/// beginning with the even ones where the channel is halved.
pub proof fn lemma_aligned_count(start: int, end: int, shift: int)
    requires
        0 <= start <= end,
        shift == 0 || shift == 1,
    ensures
        aligned_count(start, start, shift) == 0,
        aligned_count(start, end + 1, shift) == aligned_count(start, end, shift) + if shift == 0
            || end % 2 == 0 {
            1int
        } else {
            0
        },
{
}

/// As many bits as number the choices, and no more.
pub proof fn lemma_log2_up(n: int, k: int)
    requires
        1 <= n <= 0x1_0000_0000,
        0 <= k <= 32,
        k == 0 || pow2((k - 1) as nat) < n,
    ensures
        ({
            let b = log2_up(n, k);
            &&& k <= b <= 32
            &&& n <= pow2(b as nat)
            &&& b == 0 || pow2((b - 1) as nat) < n
        }),
    decreases 32 - k,
{
    lemma2_to64();
    if pow2(k as nat) < n {
        if k == 32 {
        } else {
            lemma_log2_up(n, k + 1);
        }
    }
}

proof fn lemma_blocks_bounds(n: int, halved: bool)
    requires
        1 <= n <= 0x1_0000,
    ensures
        n <= 8 * padded_blocks(n, halved) < n + 16,
        padded_blocks(n, halved) <= 32 * ceil_div(n, 256),
        1 <= ceil_div(n, 256) <= 256,
        0 <= padded_blocks(n, halved) <= 0x4000,
{
}

proof fn lemma_size_bounds(width: int, height: int, up: Seq<u8>)
    requires
        1 <= width <= 0x1_0000,
        1 <= height <= 0x1_0000,
    ensures
        ({
            let s = size_of(width, height, up);
            &&& width <= 8 * s.xsize_blocks < width + 16
            &&& height <= 8 * s.ysize_blocks < height + 16
            &&& s.xsize_blocks <= 32 * s.xsize_groups
            &&& s.ysize_blocks <= 32 * s.ysize_groups
        }),
{
    lemma_blocks_bounds(width, true);
    lemma_blocks_bounds(width, false);
    lemma_blocks_bounds(height, true);
    lemma_blocks_bounds(height, false);
}

proof fn lemma_plan_parts(plan: RecodePlan, jpeg: JpegData)
    requires
        is_plan(plan, jpeg),
    ensures
        plan.size == size_of(jpeg.width as int, jpeg.height as int, jpeg_upsampling(jpeg)),
        plan.file_header == file_header(
            jpeg.width,
            jpeg.height,
            jpeg.components@.len() == 1,
            jpeg.icc is Some,
        ),
        plan.icc is Some == jpeg.icc is Some,
        is_frame_header(plan.frame_header, jpeg, jpeg_upsampling(jpeg)),
{
    assert(profile_view(plan.icc) == profile_view(jpeg.icc));
}

/// The header of the file tells the size that the blocks of the plan cover, and grey exactly for one
/// component. Colors are converted exactly where the first component is coded as luma, and the frame
/// is sampled as the shifts of its channels say.
pub proof fn lemma_headers(plan: RecodePlan, jpeg: JpegData)
    requires
        jpeg_ok(jpeg),
        jpeg.components@.len() == 1 || jpeg.components@.len() == 3,
        is_plan(plan, jpeg),
    ensures
        plan.file_header.width <= 8 * plan.size.xsize_blocks < plan.file_header.width + 16,
        plan.file_header.height <= 8 * plan.size.ysize_blocks < plan.file_header.height + 16,
        plan.file_header.is_gray == (jpeg.components@.len() == 1),
        plan.file_header.want_icc == (plan.icc is Some),
        !plan.file_header.xyb_encoded && !plan.frame_header.xyb_encoded,
        plan.frame_header.do_ycbcr == (source_component(jpeg, 1) == 0),
        plan.size.xsize_blocks <= 32 * plan.size.xsize_groups,
        plan.size.ysize_blocks <= 32 * plan.size.ysize_groups,
{
    let map = component_map(jpeg.components@.len() as int, jpeg.component_type);
    assert(map[1] == 0 || map[1] == 1);
    lemma_plan_parts(plan, jpeg);
    lemma_size_bounds(jpeg.width as int, jpeg.height as int, jpeg_upsampling(jpeg));
}

/// A row more adds the blocks of a row, if the channel has that row.
pub proof fn lemma_aligned_rows(region: BlockRegion, s: Shift)
    requires
        region.start_bx <= region.end_bx,
        region.start_by <= region.end_by < usize::MAX,
        s.h <= 1,
        s.v <= 1,
    ensures
        aligned_blocks(
            BlockRegion { end_by: (region.end_by + 1) as usize, ..region },
            s,
        ) == aligned_blocks(region, s) + if s.v == 0 || region.end_by % 2 == 0 {
            aligned_count(region.start_bx as int, region.end_bx as int, s.h as int)
        } else {
            0
        },
        region.end_by == region.start_by ==> aligned_blocks(region, s) == 0,
{
    let w = aligned_count(region.start_bx as int, region.end_bx as int, s.h as int);
    let h = aligned_count(region.start_by as int, region.end_by as int, s.v as int);
    lemma_aligned_count(region.start_by as int, region.end_by as int, s.v as int);
    assert(w * (h + 1) == w * h + w) by (nonlinear_arith);
    assert(w * 0 == 0);
}

/// Of a group without subsampling 72 symbols are expected for each of its blocks; where the last two
/// channels have half of the columns and rows, 36 for each, as long as it begins and ends with an even
/// block.
pub proof fn lemma_symbols_expected(region: BlockRegion, shifts: Seq<Shift>)
    requires
        region.start_bx <= region.end_bx,
        region.start_by <= region.end_by,
        region.start_bx % 2 == 0 && region.end_bx % 2 == 0,
        region.start_by % 2 == 0 && region.end_by % 2 == 0,
        shifts.len() == 3,
        shifts[1].h == 0 && shifts[1].v == 0,
        shifts[0].h == shifts[0].v && shifts[2].h == shifts[0].h && shifts[2].v == shifts[0].h,
        shifts[0].h <= 1,
    ensures
        symbols_expected(region, shifts) == (if shifts[0].h == 0 {
            72int
        } else {
            36
        }) * ((region.end_bx - region.start_bx) * (region.end_by - region.start_by)),
{
    let w = region.end_bx - region.start_bx;
    let h = region.end_by - region.start_by;
    let a = aligned_count(region.start_bx as int, region.end_bx as int, 1);
    let b = aligned_count(region.start_by as int, region.end_by as int, 1);
    assert(aligned_count(region.start_bx as int, region.end_bx as int, 0) == w);
    assert(aligned_count(region.start_by as int, region.end_by as int, 0) == h);
    assert(w == 2 * a && h == 2 * b);
    assert(w * h == 4 * (a * b)) by (nonlinear_arith)
        requires
            w == 2 * a,
            h == 2 * b,
    ;
}

// ---- what a decoder makes of a recoded file ----
/// A decoder halves the channels that were written halved.
pub proof fn lemma_shifts_agree(up: Seq<u8>, read: Seq<u32>, c: int)
    requires
        up.len() == 3,
        read.len() == 3,
        forall|k: int| 0 <= k < 3 ==> #[trigger] up[k] <= 3,
        forall|k: int| 0 <= k < 3 ==> #[trigger] read[k] == up[k],
        0 <= c < 3,
    ensures
        channel_shift(read, c).h_subsample == (shift_of(up, c).h == 1),
        channel_shift(read, c).v_subsample == (shift_of(up, c).v == 1),
{
    assert(read[0] == up[0] && read[1] == up[1] && read[2] == up[2]);
    assert(up[0] <= 3 && up[1] <= 3 && up[2] <= 3);
    let s = channel_shift(read, c);
    assert(s.has_h_subsample == (h_factor(up[0]) == 1 || h_factor(up[1]) == 1 || h_factor(up[2])
        == 1)) by {
        if h_factor(up[0]) == 1 {
            assert(read[0] == 1 || read[0] == 2);
        } else if h_factor(up[1]) == 1 {
            assert(read[1] == 1 || read[1] == 2);
        } else if h_factor(up[2]) == 1 {
            assert(read[2] == 1 || read[2] == 2);
        }
    }
    assert(s.has_v_subsample == (v_factor(up[0]) == 1 || v_factor(up[1]) == 1 || v_factor(up[2])
        == 1)) by {
        if v_factor(up[0]) == 1 {
            assert(read[0] == 1 || read[0] == 3);
        } else if v_factor(up[1]) == 1 {
            assert(read[1] == 1 || read[1] == 3);
        } else if v_factor(up[2]) == 1 {
            assert(read[2] == 1 || read[2] == 3);
        }
    }
    if c == 0 {
    } else if c == 1 {
    } else {
        assert(c == 2);
    }
}

/// A decoder expects the number of coefficients that was expected of a block when it was written:
/// its row of numbers holds those of the row above from the block on, and those of its own row
/// before it.
pub proof fn lemma_prediction_agrees(
    channels: Seq<Vec<BlockRow>>,
    c: int,
    s: Shift,
    region: BlockRegion,
    bx: int,
    by: int,
    row: Seq<u32>,
)
    requires
        s.h == 0,
        s.v == 0,
        region.start_bx <= bx,
        region.start_by <= by,
        bx - region.start_bx < row.len(),
        by > region.start_by ==> row[bx - region.start_bx] == channels[c]@[by - 1].nz@[bx],
        bx > region.start_bx ==> row[bx - region.start_bx - 1] == channels[c]@[by].nz@[bx - 1],
    ensures
        predicted(row, bx - region.start_bx, by - region.start_by) == predicted_nz(
            channels,
            c,
            s,
            region,
            bx,
            by,
        ),
{
}

/// Channels are read in the order in which they are written.
pub proof fn lemma_channels_agree(k: int)
    requires
        0 <= k < 3,
    ensures
        channel_of(k) == coded_channel(k),
        lf_channel(k) == coded_channel(k),
{
}

/// A decoder takes as many bits for the number of a choice as are written.
pub proof fn lemma_choice_bits_agree(n: int)
    requires
        1 <= n <= 0x8000_0000,
    ensures
        bits_below(n, 0) == log2_up(n, 0),
{
    lemma_bits_agree(n, 0);
}

proof fn lemma_bits_agree(n: int, k: int)
    requires
        1 <= n <= 0x8000_0000,
        0 <= k <= 31,
    ensures
        bits_below(n, k) == log2_up(n, k),
    decreases 31 - k,
{
    lemma2_to64();
    if pow2(k as nat) < n {
        if k == 31 {
        } else {
            lemma_bits_agree(n, k + 1);
        }
    }
}

} // verus!
