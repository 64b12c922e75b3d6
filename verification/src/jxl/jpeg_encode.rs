//! Recoding of a JPEG file, with and without the data that restores the file.
use crate::jxl::jpeg_data::{
    channel_views, component_map, is_component, is_mapped, is_row, is_zero_component, is_zero_row,
    lemma_one_mapping, map_jpeg_coefficients, row_views, transposed, BlockRow, JpegComponent,
    JpegComponentType, JpegData, RowModel,
};
use crate::jxl::jpeg_recode::{
    ac_global_ops, blocks_from, channel_shifts, channels_cover, coded_channel,
    compute_jpeg_upsampling, dc_global_ops, group_blocks, halved, list_blocks, nz_at, off_grid,
    recode_size, region_of, shift_of, shifts_of, size_of, upsampling_of, write_ac_global_jpeg,
    write_dc_global_jpeg, AcBlock, BlockRegion, RecodeError, RecodeSize, SectionOp, Shift,
    DC_GROUP_DIM_IN_BLOCKS, GROUP_DIM_IN_BLOCKS,
};
use crate::parallel::parallel_map;
use vstd::prelude::*;

verus! {

// ---- tables and headers ----
/// The quantization tables of the channels, transposed.
pub open spec fn raw_tables(jpeg: JpegData, map: Seq<usize>) -> Seq<i32> {
    Seq::new(
        192,
        |i: int|
            jpeg.quant@[jpeg.components@[map[i / 64] as int].quant_idx as int].values@[transposed(
                i % 64,
            )],
    )
}

/// Every component has a quantization table.
pub open spec fn tables_exist(jpeg: JpegData, map: Seq<usize>) -> bool {
    forall|c: int|
        0 <= c < 3 ==> #[trigger] map[c] < jpeg.components@.len()
            && jpeg.components@[map[c] as int].quant_idx < jpeg.quant@.len()
}

pub fn build_raw_qtables(jpeg: &JpegData, jpeg_c_map: &[usize; 3]) -> (r: Vec<i32>)
    requires
        tables_exist(*jpeg, jpeg_c_map@),
    ensures
        r@ == raw_tables(*jpeg, jpeg_c_map@),
{
    let mut r: Vec<i32> = Vec::new();
    let mut i: usize = 0;
    while i < 192
        invariant
            i <= 192,
            tables_exist(*jpeg, jpeg_c_map@),
            r@.len() == i,
            forall|k: int| 0 <= k < i ==> #[trigger] r@[k] == raw_tables(*jpeg, jpeg_c_map@)[k],
        decreases 192 - i,
    {
        let c: usize = jpeg_c_map[i / 64];
        assert(jpeg_c_map@[i as int / 64] < jpeg.components@.len());
        let table: usize = jpeg.components[c].quant_idx as usize;
        let k: usize = i % 64;
        r.push(jpeg.quant[table].values[(k % 8) * 8 + k / 8]);
        i = i + 1;
    }
    assert(r@ =~= raw_tables(*jpeg, jpeg_c_map@));
    r
}

/// Low-frequency steps of the channels.
pub open spec fn dc_steps(jpeg: JpegData, map: Seq<usize>) -> Seq<i32> {
    Seq::new(
        3,
        |c: int| jpeg.quant@[jpeg.components@[map[c] as int].quant_idx as int].values@[0],
    )
}

pub fn build_dc_dequant(jpeg: &JpegData, jpeg_c_map: &[usize; 3]) -> (r: [i32; 3])
    requires
        tables_exist(*jpeg, jpeg_c_map@),
    ensures
        r@ == dc_steps(*jpeg, jpeg_c_map@),
{
    let mut r: [i32; 3] = [0i32; 3];
    let mut c: usize = 0;
    while c < 3
        invariant
            c <= 3,
            tables_exist(*jpeg, jpeg_c_map@),
            r@.len() == 3,
            forall|k: int| 0 <= k < c ==> #[trigger] r@[k] == dc_steps(*jpeg, jpeg_c_map@)[k],
        decreases 3 - c,
    {
        let i: usize = jpeg_c_map[c];
        assert(jpeg_c_map@[c as int] < jpeg.components@.len());
        let table: usize = jpeg.components[i].quant_idx as usize;
        r[c] = jpeg.quant[table].values[0];
        c = c + 1;
    }
    assert(r@ =~= dc_steps(*jpeg, jpeg_c_map@));
    r
}

/// How colors are to be rendered.
#[derive(Debug, Clone, Copy, PartialEq, Eq, Structural)]
pub enum RenderingIntent {
    Perceptual,
    Relative,
    Saturation,
    Absolute,
}

/// What the file header says of a recoded file.
#[derive(Debug, Clone, Copy, PartialEq, Eq, Structural)]
pub struct FileHeader {
    pub width: u32,
    pub height: u32,
    pub bits_per_sample: u32,
    pub is_gray: bool,
    pub rendering_intent: RenderingIntent,
    pub xyb_encoded: bool,
    /// Whether a color profile follows.
    pub want_icc: bool,
}

/// The header of a file of eight-bit samples: gray with relative rendering, or standard colors
/// with perceptual rendering, and whether a color profile follows.
pub open spec fn file_header(width: u32, height: u32, is_gray: bool, want_icc: bool) -> FileHeader {
    FileHeader {
        width,
        height,
        bits_per_sample: 8,
        is_gray,
        rendering_intent: if is_gray {
            RenderingIntent::Relative
        } else {
            RenderingIntent::Perceptual
        },
        xyb_encoded: false,
        want_icc,
    }
}

pub fn build_jpeg_file_header(width: u32, height: u32, is_gray: bool, want_icc: bool) -> (r:
    FileHeader)
    ensures
        r == file_header(width, height, is_gray, want_icc),
{
    FileHeader {
        width,
        height,
        bits_per_sample: 8,
        is_gray,
        rendering_intent: if is_gray {
            RenderingIntent::Relative
        } else {
            RenderingIntent::Perceptual
        },
        xyb_encoded: false,
        want_icc,
    }
}

/// What the frame header says of a recoded file.
#[derive(Debug, Clone, Copy)]
pub struct RecodeFrameHeader {
    pub is_vardct: bool,
    pub xyb_encoded: bool,
    pub do_ycbcr: bool,
    pub jpeg_upsampling: [u8; 3],
    pub flags: u32,
    pub gaborish: bool,
    pub epf_iters: u32,
    pub x_qm_scale: u32,
    pub b_qm_scale: u32,
}

/// Low frequencies are not smoothed.
pub const SKIP_ADAPTIVE_LF_SMOOTHING: u32 = 0x80;

pub open spec fn is_frame_header(h: RecodeFrameHeader, jpeg: JpegData, up: Seq<u8>) -> bool {
    &&& h.is_vardct
    &&& !h.xyb_encoded
    &&& h.do_ycbcr == (jpeg.component_type == JpegComponentType::YCbCr || jpeg.components@.len()
        == 1)
    &&& h.jpeg_upsampling@ == up
    &&& h.flags == SKIP_ADAPTIVE_LF_SMOOTHING
    &&& !h.gaborish
    &&& h.epf_iters == 0
    &&& h.x_qm_scale == 2
    &&& h.b_qm_scale == 2
}

pub fn build_jpeg_frame_header(jpeg: &JpegData, jpeg_upsampling: [u8; 3]) -> (r: RecodeFrameHeader)
    ensures
        is_frame_header(r, *jpeg, jpeg_upsampling@),
{
    RecodeFrameHeader {
        is_vardct: true,
        xyb_encoded: false,
        do_ycbcr: jpeg.component_type == JpegComponentType::YCbCr || jpeg.components.len() == 1,
        jpeg_upsampling,
        flags: SKIP_ADAPTIVE_LF_SMOOTHING,
        gaborish: false,
        epf_iters: 0,
        x_qm_scale: 2,
        b_qm_scale: 2,
    }
}

// ---- the plan ----
/// Everything about a recoded file but its entropy-coded bits.
pub struct RecodePlan {
    pub size: RecodeSize,
    pub shifts: [Shift; 3],
    /// The blocks of the three channels.
    pub channels: Vec<Vec<BlockRow>>,
    pub raw_qtables: Vec<i32>,
    pub file_header: FileHeader,
    /// The color profile, which is written behind the file header.
    pub icc: Option<Vec<u8>>,
    pub frame_header: RecodeFrameHeader,
    pub dc_global: Vec<SectionOp>,
    pub dc_groups: Vec<BlockRegion>,
    pub ac_global: Vec<SectionOp>,
    pub ac_groups: Vec<Vec<AcBlock>>,
}

pub open spec fn jpeg_upsampling(jpeg: JpegData) -> Seq<u8> {
    if jpeg.components@.len() == 3 {
        upsampling_of(jpeg, component_map(3, jpeg.component_type))
    } else {
        seq![0u8, 0u8, 0u8]
    }
}

pub open spec fn jpeg_size(jpeg: JpegData) -> RecodeSize {
    size_of(jpeg.width as int, jpeg.height as int, jpeg_upsampling(jpeg))
}

/// Region of group `i`.
pub open spec fn ac_region(size: RecodeSize, i: int) -> BlockRegion {
    region_of(
        i,
        size.xsize_groups as int,
        GROUP_DIM_IN_BLOCKS as int,
        size.xsize_blocks as int,
        size.ysize_blocks as int,
    )
}

/// Region of group `i` of low frequencies.
pub open spec fn dc_region(size: RecodeSize, i: int) -> BlockRegion {
    region_of(
        i,
        size.xsize_dc_groups as int,
        DC_GROUP_DIM_IN_BLOCKS as int,
        size.xsize_blocks as int,
        size.ysize_blocks as int,
    )
}

/// A color profile as a sequence.
pub open spec fn profile_view(icc: Option<Vec<u8>>) -> Option<Seq<u8>> {
    match icc {
        Some(v) => Some(v@),
        None => None,
    }
}

fn copy_profile(icc: &Option<Vec<u8>>) -> (r: Option<Vec<u8>>)
    ensures
        profile_view(r) == profile_view(*icc),
{
    match icc {
        Some(v) => Some(vstd::slice::slice_to_vec(v.as_slice())),
        None => None,
    }
}

/// The plan of a file.
pub open spec fn is_plan(plan: RecodePlan, jpeg: JpegData) -> bool {
    let map = component_map(jpeg.components@.len() as int, jpeg.component_type);
    let up = jpeg_upsampling(jpeg);
    let size = jpeg_size(jpeg);
    let shifts = shifts_of(up);
    &&& plan.size == size
    &&& plan.shifts@ == shifts
    &&& is_mapped(plan.channels@, jpeg)
    &&& plan.raw_qtables@ == raw_tables(jpeg, map)
    &&& plan.file_header == file_header(
        jpeg.width,
        jpeg.height,
        jpeg.components@.len() == 1,
        jpeg.icc is Some,
    )
    &&& profile_view(plan.icc) == profile_view(jpeg.icc)
    &&& is_frame_header(plan.frame_header, jpeg, up)
    &&& plan.dc_global@ == dc_global_ops(
        dc_steps(jpeg, map),
        (size.xsize_dc_groups * size.ysize_dc_groups) as usize,
    )
    &&& plan.dc_groups@ == Seq::new(
        (size.xsize_dc_groups * size.ysize_dc_groups) as nat,
        |i: int| dc_region(size, i),
    )
    &&& plan.ac_global@ == ac_global_ops(size.xsize_groups * size.ysize_groups)
    &&& plan.ac_groups@.len() == size.xsize_groups * size.ysize_groups
    &&& forall|i: int|
        0 <= i < plan.ac_groups@.len() ==> (#[trigger] plan.ac_groups@[i])@ == group_blocks(
            plan.channels@,
            shifts,
            ac_region(size, i),
        )
}

/// The components have the blocks and tables that the dimensions and sampling factors call for.
pub open spec fn jpeg_ok(jpeg: JpegData) -> bool {
    let n = jpeg.components@.len() as int;
    let map = component_map(n, jpeg.component_type);
    let size = jpeg_size(jpeg);
    let shifts = shifts_of(jpeg_upsampling(jpeg));
    &&& 1 <= jpeg.width <= 0x1_0000
    &&& 1 <= jpeg.height <= 0x1_0000
    &&& n == 1 || n == 3 ==> {
        &&& tables_exist(jpeg, map)
        &&& forall|i: int| 0 <= i < n ==> (#[trigger] jpeg.components@[i]).wf()
        &&& forall|c: int|
            0 <= c < 3 ==> {
                let comp = jpeg.components@[#[trigger] map[c] as int];
                &&& comp.width_in_blocks >= halved(size.xsize_blocks as int, shifts[c].h)
                &&& comp.height_in_blocks >= halved(size.ysize_blocks as int, shifts[c].v)
            }
    }
}

/// Whether a component has a table, its coefficients, and the blocks that a channel calls for.
fn component_ok(jpeg: &JpegData, i: usize, xblocks: usize, yblocks: usize, s: Shift) -> (r: bool)
    requires
        i < jpeg.components@.len(),
    ensures
        r == ({
            let comp = jpeg.components@[i as int];
            &&& comp.quant_idx < jpeg.quant@.len()
            &&& comp.wf()
            &&& comp.width_in_blocks >= halved(xblocks as int, s.h)
            &&& comp.height_in_blocks >= halved(yblocks as int, s.v)
        }),
{
    let comp = &jpeg.components[i];
    let x: usize = if s.h > 0 {
        xblocks / 2
    } else {
        xblocks
    };
    let y: usize = if s.v > 0 {
        yblocks / 2
    } else {
        yblocks
    };
    let w: u128 = comp.width_in_blocks as u128;
    let h: u128 = comp.height_in_blocks as u128;
    assert(0 <= w * h <= 0xFFFF_FFFF * 0xFFFF_FFFF) by (nonlinear_arith)
        requires
            w <= 0xFFFF_FFFF,
            h <= 0xFFFF_FFFF,
    ;
    (comp.quant_idx as usize) < jpeg.quant.len() && comp.coeffs.len() as u128 >= 64 * (w * h)
        && comp.width_in_blocks as usize >= x && comp.height_in_blocks as usize >= y
}

/// Whether the components have the blocks and tables that the dimensions and sampling factors
/// call for.
pub fn can_recode(jpeg: &JpegData) -> (r: bool)
    ensures
        r == jpeg_ok(*jpeg),
{
    if jpeg.width < 1 || jpeg.width > 0x1_0000 || jpeg.height < 1 || jpeg.height > 0x1_0000 {
        return false;
    }
    let count: usize = jpeg.components.len();
    if count != 1 && count != 3 {
        return true;
    }
    let map: [usize; 3] = if count == 1 {
        [0, 0, 0]
    } else if jpeg.component_type == JpegComponentType::YCbCr {
        [1, 0, 2]
    } else {
        [0, 1, 2]
    };
    assert(map@ =~= component_map(count as int, jpeg.component_type));
    let up: [u8; 3] = if count == 3 {
        compute_jpeg_upsampling(jpeg, &map)
    } else {
        [0, 0, 0]
    };
    assert(up@ =~= jpeg_upsampling(*jpeg));
    let shifts: [Shift; 3] = channel_shifts(&up);
    let size: RecodeSize = recode_size(
        jpeg.width as usize,
        jpeg.height as usize,
        &shifts,
        Ghost(up@),
    );
    let a: bool = component_ok(jpeg, map[0], size.xsize_blocks, size.ysize_blocks, shifts[0]);
    let b: bool = component_ok(jpeg, map[1], size.xsize_blocks, size.ysize_blocks, shifts[1]);
    let c: bool = component_ok(jpeg, map[2], size.xsize_blocks, size.ysize_blocks, shifts[2]);
    proof {
        let m = component_map(count as int, jpeg.component_type);
        let s = shifts_of(jpeg_upsampling(*jpeg));
        assert(shifts@ == s);
        if jpeg_ok(*jpeg) {
            assert(m[0] < count && m[1] < count && m[2] < count);
            assert(jpeg.components@[m[0] as int].wf());
            assert(jpeg.components@[m[1] as int].wf());
            assert(jpeg.components@[m[2] as int].wf());
            assert(a && b && c);
        }
        if a && b && c {
            assert forall|i: int| 0 <= i < count implies (#[trigger] jpeg.components@[i]).wf() by {
                assert(i == m[0] || i == m[1] || i == m[2]);
            }
            assert(tables_exist(*jpeg, m));
            assert(jpeg_ok(*jpeg));
        }
    }
    a && b && c
}

proof fn lemma_rows(
    rows: Seq<BlockRow>,
    comp: JpegComponent,
    by: int,
    width: int,
    height: int,
)
    requires
        is_component(rows, comp) || is_zero_component(
            rows,
            comp.width_in_blocks as int,
            comp.height_in_blocks as int,
        ),
        comp.width_in_blocks >= width,
        comp.height_in_blocks >= height,
        0 <= by < height,
    ensures
        by < rows.len(),
        rows[by].nz@.len() >= width,
{
    if is_component(rows, comp) {
        assert(is_row(rows[by], comp.coeffs@, comp.width_in_blocks as int, by));
    } else {
        assert(is_zero_row(rows[by], comp.width_in_blocks as int));
    }
}

proof fn lemma_channels_cover(channels: Seq<Vec<BlockRow>>, jpeg: JpegData)
    requires
        jpeg_ok(jpeg),
        jpeg.components@.len() == 1 || jpeg.components@.len() == 3,
        is_mapped(channels, jpeg),
    ensures
        channels_cover(
            channels,
            shifts_of(jpeg_upsampling(jpeg)),
            jpeg_size(jpeg).xsize_blocks as int,
            jpeg_size(jpeg).ysize_blocks as int,
        ),
{
    let n = jpeg.components@.len() as int;
    let map = component_map(n, jpeg.component_type);
    let size = jpeg_size(jpeg);
    let up = jpeg_upsampling(jpeg);
    let shifts = shifts_of(up);
    let xs = size.xsize_blocks as int;
    let ys = size.ysize_blocks as int;
    assert forall|c: int| 0 <= c < 3 implies (#[trigger] shifts[c]).h <= 1 && shifts[c].v <= 1 && (
    shifts[c].h == 1 ==> xs % 2 == 0) && (shifts[c].v == 1 ==> ys % 2 == 0) by {
        assert(shifts[c] == shift_of(up, c));
    }
    assert forall|c: int, by: int|
        #![trigger channels[c]@[by]]
        0 <= c < 3 && 0 <= by < halved(ys, shifts[c].v) implies by < channels[c]@.len()
        && channels[c]@[by].nz@.len() >= halved(xs, shifts[c].h) by {
        let comp = jpeg.components@[map[c] as int];
        assert(map[c] < n);
        lemma_rows(
            channels[c]@,
            comp,
            by,
            halved(xs, shifts[c].h),
            halved(ys, shifts[c].v),
        );
    }
}

/// Group `i` starts within the image.
pub proof fn lemma_region(i: int, per_row: int, rows: int, dim: int, xsize: int, ysize: int)
    requires
        0 <= i < per_row * rows,
        per_row >= 1,
        (per_row - 1) * dim < xsize,
        (rows - 1) * dim < ysize,
        1 <= dim <= 256,
    ensures
        0 <= i % per_row < per_row,
        0 <= i / per_row < rows,
        0 <= i % per_row * dim < xsize,
        0 <= i / per_row * dim < ysize,
{
    vstd::arithmetic::div_mod::lemma_fundamental_div_mod(i, per_row);
    vstd::arithmetic::div_mod::lemma_mod_bound(i, per_row);
    let q = i / per_row;
    let r = i % per_row;
    assert(0 <= q < rows) by (nonlinear_arith)
        requires
            i == per_row * q + r,
            0 <= r < per_row,
            0 <= i < per_row * rows,
            per_row >= 1,
    ;
    assert(0 <= r * dim <= (per_row - 1) * dim) by (nonlinear_arith)
        requires
            0 <= r <= per_row - 1,
            dim >= 0,
    ;
    assert(0 <= q * dim <= (rows - 1) * dim) by (nonlinear_arith)
        requires
            0 <= q <= rows - 1,
            dim >= 0,
    ;
}

pub fn region_at(i: usize, per_row: usize, rows: usize, dim: usize, xsize: usize, ysize: usize) -> (r:
    BlockRegion)
    requires
        i < per_row * rows,
        per_row >= 1,
        (per_row - 1) * dim < xsize <= usize::MAX - dim,
        (rows - 1) * dim < ysize <= usize::MAX - dim,
        1 <= dim <= 256,
    ensures
        r == region_of(i as int, per_row as int, dim as int, xsize as int, ysize as int),
        r.start_bx < r.end_bx <= xsize,
        r.start_by < r.end_by <= ysize,
{
    proof {
        lemma_region(
            i as int,
            per_row as int,
            rows as int,
            dim as int,
            xsize as int,
            ysize as int,
        );
    }
    let bx: usize = i % per_row * dim;
    let by: usize = i / per_row * dim;
    BlockRegion {
        start_bx: bx,
        start_by: by,
        end_bx: if bx + dim < xsize {
            bx + dim
        } else {
            xsize
        },
        end_by: if by + dim < ysize {
            by + dim
        } else {
            ysize
        },
    }
}

/// The numbers of groups and blocks go together.
proof fn lemma_sizes(width: int, height: int, up: Seq<u8>)
    requires
        1 <= width <= 0x1_0000,
        1 <= height <= 0x1_0000,
    ensures
        ({
            let s = size_of(width, height, up);
            &&& 1 <= s.xsize_groups <= 256
            &&& 1 <= s.ysize_groups <= 256
            &&& 1 <= s.xsize_dc_groups <= 32
            &&& 1 <= s.ysize_dc_groups <= 32
            &&& (s.xsize_groups - 1) * 32 < s.xsize_blocks <= 0x1_0000
            &&& (s.ysize_groups - 1) * 32 < s.ysize_blocks <= 0x1_0000
            &&& (s.xsize_dc_groups - 1) * 256 < s.xsize_blocks
            &&& (s.ysize_dc_groups - 1) * 256 < s.ysize_blocks
            &&& s.xsize_blocks <= s.xsize_groups * 32
            &&& s.ysize_blocks <= s.ysize_groups * 32
            &&& 1 <= s.xsize_groups * s.ysize_groups <= 65536
            &&& 1 <= s.xsize_dc_groups * s.ysize_dc_groups <= 1024
        }),
{
    let s = size_of(width, height, up);
    let a = s.xsize_groups as int;
    let b = s.ysize_groups as int;
    assert(1 <= a * b <= 65536) by (nonlinear_arith)
        requires
            1 <= a <= 256,
            1 <= b <= 256,
    ;
    let c = s.xsize_dc_groups as int;
    let d = s.ysize_dc_groups as int;
    assert(1 <= c * d <= 1024) by (nonlinear_arith)
        requires
            1 <= c <= 32,
            1 <= d <= 32,
    ;
}

fn list_dc_groups(size: RecodeSize) -> (r: Vec<BlockRegion>)
    requires
        1 <= size.xsize_dc_groups <= 32,
        1 <= size.ysize_dc_groups <= 32,
        (size.xsize_dc_groups - 1) * 256 < size.xsize_blocks <= 0x1_0000,
        (size.ysize_dc_groups - 1) * 256 < size.ysize_blocks <= 0x1_0000,
    ensures
        r@ == Seq::new(
            (size.xsize_dc_groups * size.ysize_dc_groups) as nat,
            |i: int| dc_region(size, i),
        ),
{
    let mut r: Vec<BlockRegion> = Vec::new();
    assert(size.xsize_dc_groups * size.ysize_dc_groups <= 1024) by (nonlinear_arith)
        requires
            size.xsize_dc_groups <= 32,
            size.ysize_dc_groups <= 32,
    ;
    let count: usize = size.xsize_dc_groups * size.ysize_dc_groups;
    let mut i: usize = 0;
    while i < count
        invariant
            i <= count,
            count == size.xsize_dc_groups * size.ysize_dc_groups,
            1 <= size.xsize_dc_groups <= 32,
            1 <= size.ysize_dc_groups <= 32,
            (size.xsize_dc_groups - 1) * 256 < size.xsize_blocks <= 0x1_0000,
            (size.ysize_dc_groups - 1) * 256 < size.ysize_blocks <= 0x1_0000,
            r@ == Seq::new(i as nat, |k: int| dc_region(size, k)),
        decreases count - i,
    {
        r.push(
            region_at(
                i,
                size.xsize_dc_groups,
                size.ysize_dc_groups,
                DC_GROUP_DIM_IN_BLOCKS,
                size.xsize_blocks,
                size.ysize_blocks,
            ),
        );
        i = i + 1;
        assert(r@ =~= Seq::new(i as nat, |k: int| dc_region(size, k)));
    }
    r
}

/// Lists the blocks of all groups; groups are independent of each other.
fn list_ac_groups(
    size: RecodeSize,
    shifts: &[Shift; 3],
    channels: &Vec<Vec<BlockRow>>,
    sequential: bool,
) -> (r: Vec<Vec<AcBlock>>)
    requires
        1 <= size.xsize_groups <= 256,
        1 <= size.ysize_groups <= 256,
        (size.xsize_groups - 1) * 32 < size.xsize_blocks <= 0x1_0000,
        (size.ysize_groups - 1) * 32 < size.ysize_blocks <= 0x1_0000,
        channels_cover(
            channels@,
            shifts@,
            size.xsize_blocks as int,
            size.ysize_blocks as int,
        ),
    ensures
        r@.len() == size.xsize_groups * size.ysize_groups,
        forall|i: int|
            0 <= i < r@.len() ==> (#[trigger] r@[i])@ == group_blocks(
                channels@,
                shifts@,
                ac_region(size, i),
            ),
{
    assert(size.xsize_groups * size.ysize_groups <= 65536) by (nonlinear_arith)
        requires
            size.xsize_groups <= 256,
            size.ysize_groups <= 256,
    ;
    let count: usize = size.xsize_groups * size.ysize_groups;
    let list = |i: usize| -> (out: Vec<AcBlock>)
        requires
            i < count,
        ensures
            out@ == group_blocks(channels@, shifts@, ac_region(size, i as int)),
        {
            let region: BlockRegion = region_at(
                i,
                size.xsize_groups,
                size.ysize_groups,
                GROUP_DIM_IN_BLOCKS,
                size.xsize_blocks,
                size.ysize_blocks,
            );
            list_blocks(channels, shifts, &region, size.xsize_blocks, size.ysize_blocks)
        };
    let r: Vec<Vec<AcBlock>> = parallel_map(count, sequential, list);
    assert forall|i: int| 0 <= i < r@.len() implies (#[trigger] r@[i])@ == group_blocks(
        channels@,
        shifts@,
        ac_region(size, i),
    ) by {
        let k = i as usize;
        assert(call_ensures(list, (k,), r@[k as int]));
    }
    r
}

/// Makes the plan of a file.
pub fn encode_jpeg_to_jxl_inner(jpeg: &JpegData, sequential: bool) -> (r: Result<
    RecodePlan,
    RecodeError,
>)
    requires
        jpeg_ok(*jpeg),
    ensures
        match r {
            Ok(plan) => (jpeg.components@.len() == 1 || jpeg.components@.len() == 3) && is_plan(
                plan,
                *jpeg,
            ),
            Err(e) => jpeg.components@.len() != 1 && jpeg.components@.len() != 3 && e
                == RecodeError::ComponentCount(jpeg.components@.len() as usize),
        },
{
    let count: usize = jpeg.components.len();
    if count != 1 && count != 3 {
        return Err(RecodeError::ComponentCount(count));
    }
    let map: [usize; 3] = if count == 1 {
        [0, 0, 0]
    } else if jpeg.component_type == JpegComponentType::YCbCr {
        [1, 0, 2]
    } else {
        [0, 1, 2]
    };
    assert(map@ =~= component_map(count as int, jpeg.component_type));
    let up: [u8; 3] = if count == 3 {
        compute_jpeg_upsampling(jpeg, &map)
    } else {
        [0, 0, 0]
    };
    assert(up@ =~= jpeg_upsampling(*jpeg));
    let shifts: [Shift; 3] = channel_shifts(&up);
    let size: RecodeSize = recode_size(
        jpeg.width as usize,
        jpeg.height as usize,
        &shifts,
        Ghost(up@),
    );
    proof {
        lemma_sizes(jpeg.width as int, jpeg.height as int, up@);
    }
    let channels: Vec<Vec<BlockRow>> = map_jpeg_coefficients(jpeg, &map, sequential);
    proof {
        lemma_channels_cover(channels@, *jpeg);
    }
    let raw_qtables: Vec<i32> = build_raw_qtables(jpeg, &map);
    let dc_quant: [i32; 3] = build_dc_dequant(jpeg, &map);
    let dc_groups: Vec<BlockRegion> = list_dc_groups(size);
    let ac_groups: Vec<Vec<AcBlock>> = list_ac_groups(size, &shifts, &channels, sequential);
    let dc_global: Vec<SectionOp> = write_dc_global_jpeg(
        &dc_quant,
        size.xsize_dc_groups * size.ysize_dc_groups,
    );
    let ac_global: Vec<SectionOp> = write_ac_global_jpeg(size.xsize_groups * size.ysize_groups);
    Ok(
        RecodePlan {
            size,
            shifts,
            channels,
            raw_qtables,
            file_header: build_jpeg_file_header(
                jpeg.width,
                jpeg.height,
                count == 1,
                jpeg.icc.is_some(),
            ),
            icc: copy_profile(&jpeg.icc),
            frame_header: build_jpeg_frame_header(jpeg, up),
            dc_global,
            dc_groups,
            ac_global,
            ac_groups,
        },
    )
}

// ---- one plan ----
/// A plan as sequences.
pub struct PlanModel {
    pub size: RecodeSize,
    pub shifts: Seq<Shift>,
    pub channels: Seq<Seq<RowModel>>,
    pub raw_qtables: Seq<i32>,
    pub file_header: FileHeader,
    pub icc: Option<Seq<u8>>,
    pub frame_header: RecodeFrameHeader,
    pub dc_global: Seq<SectionOp>,
    pub dc_groups: Seq<BlockRegion>,
    pub ac_global: Seq<SectionOp>,
    pub ac_groups: Seq<Seq<AcBlock>>,
}

impl View for RecodePlan {
    type V = PlanModel;

    open spec fn view(&self) -> PlanModel {
        PlanModel {
            size: self.size,
            shifts: self.shifts@,
            channels: channel_views(self.channels@),
            raw_qtables: self.raw_qtables@,
            file_header: self.file_header,
            icc: profile_view(self.icc),
            frame_header: self.frame_header,
            dc_global: self.dc_global@,
            dc_groups: self.dc_groups@,
            ac_global: self.ac_global@,
            ac_groups: Seq::new(self.ac_groups@.len(), |i: int| self.ac_groups@[i]@),
        }
    }
}

proof fn lemma_same_nz(
    a: Seq<Vec<BlockRow>>,
    b: Seq<Vec<BlockRow>>,
    c: int,
    bx: int,
    by: int,
)
    requires
        channel_views(a) == channel_views(b),
        0 <= c < a.len(),
        0 <= by < a[c]@.len(),
    ensures
        nz_at(a, c, bx, by) == nz_at(b, c, bx, by),
{
    assert(channel_views(a).len() == a.len() && channel_views(b).len() == b.len());
    assert(channel_views(a)[c] == row_views(a[c]@));
    assert(channel_views(b)[c] == row_views(b[c]@));
    assert(row_views(a[c]@)[by] == a[c]@[by]@);
    assert(row_views(a[c]@).len() == a[c]@.len() && row_views(b[c]@).len() == b[c]@.len());
    assert(row_views(b[c]@)[by] == b[c]@[by]@);
    assert(a[c]@[by]@.nz == b[c]@[by]@.nz);
}

/// The same blocks are listed in the same way.
proof fn lemma_one_listing(
    a: Seq<Vec<BlockRow>>,
    b: Seq<Vec<BlockRow>>,
    shifts: Seq<Shift>,
    region: BlockRegion,
    xsize: int,
    ysize: int,
    bx: int,
    by: int,
    k: int,
)
    requires
        channel_views(a) == channel_views(b),
        channels_cover(a, shifts, xsize, ysize),
        region.start_bx <= bx,
        region.start_by <= by,
        region.end_by <= ysize,
        0 <= k,
    ensures
        blocks_from(a, shifts, region, bx, by, k) == blocks_from(b, shifts, region, bx, by, k),
    decreases region.end_by - by, region.end_bx - bx, 3 - k,
{
    if by >= region.end_by {
    } else if bx >= region.end_bx {
        lemma_one_listing(
            a,
            b,
            shifts,
            region,
            xsize,
            ysize,
            region.start_bx as int,
            by + 1,
            0,
        );
    } else if k >= 3 {
        lemma_one_listing(a, b, shifts, region, xsize, ysize, bx + 1, by, 0);
    } else {
        lemma_one_listing(a, b, shifts, region, xsize, ysize, bx, by, k + 1);
        let c = coded_channel(k);
        let s = shifts[c];
        assert(s.h <= 1 && s.v <= 1);
        if !off_grid(s, bx, by) {
            let x = halved(bx, s.h);
            let y = halved(by, s.v);
            assert(y < a[c]@.len()) by {
                assert(y < halved(ysize, s.v));
                assert(channels_cover(a, shifts, xsize, ysize));
                let row = a[c]@[y];
            }
            lemma_same_nz(a, b, c, x, y);
            lemma_same_nz(a, b, c, x - 1, y);
            if y > 0 {
                lemma_same_nz(a, b, c, x, y - 1);
            }
        }
    }
}

/// There is one plan of a file, however its parts were made.
pub proof fn lemma_one_plan(a: RecodePlan, b: RecodePlan, jpeg: JpegData)
    requires
        jpeg_ok(jpeg),
        jpeg.components@.len() == 1 || jpeg.components@.len() == 3,
        is_plan(a, jpeg),
        is_plan(b, jpeg),
    ensures
        a@ == b@,
{
    let size = jpeg_size(jpeg);
    let shifts = shifts_of(jpeg_upsampling(jpeg));
    lemma_one_mapping(a.channels@, b.channels@, jpeg);
    lemma_channels_cover(a.channels@, jpeg);
    lemma_sizes(jpeg.width as int, jpeg.height as int, jpeg_upsampling(jpeg));
    assert(a.frame_header.jpeg_upsampling =~= b.frame_header.jpeg_upsampling);
    assert forall|i: int| 0 <= i < a.ac_groups@.len() implies a.ac_groups@[i]@
        == b.ac_groups@[i]@ by {
        let region = ac_region(size, i);
        lemma_region(
            i,
            size.xsize_groups as int,
            size.ysize_groups as int,
            GROUP_DIM_IN_BLOCKS as int,
            size.xsize_blocks as int,
            size.ysize_blocks as int,
        );
        lemma_one_listing(
            a.channels@,
            b.channels@,
            shifts,
            region,
            size.xsize_blocks as int,
            size.ysize_blocks as int,
            region.start_bx as int,
            region.start_by as int,
            0,
        );
    }
    assert(a@.ac_groups =~= b@.ac_groups);
}

// ---- files ----
/// What a coder makes of a plan: the codestream and the length of its file header.
pub type Coded = Result<(Vec<u8>, usize), RecodeError>;

/// What recoding returns, given what the coder returned for the plan of the file.
pub open spec fn recodes<F: Fn(&RecodePlan) -> Coded>(jpeg: JpegData, code: F, r: Coded) -> bool {
    if jpeg.components@.len() != 1 && jpeg.components@.len() != 3 {
        r matches Err(e) && e == RecodeError::ComponentCount(jpeg.components@.len() as usize)
    } else {
        exists|plan: RecodePlan| #[trigger]
            is_plan(plan, jpeg) && call_ensures(code, (&plan,), r)
    }
}

fn recode<F: Fn(&RecodePlan) -> Coded>(jpeg: &JpegData, code: F, sequential: bool) -> (r: Coded)
    requires
        jpeg_ok(*jpeg),
        forall|plan: RecodePlan| is_plan(plan, *jpeg) ==> #[trigger] call_requires(code, (&plan,)),
    ensures
        recodes(*jpeg, code, r),
{
    match encode_jpeg_to_jxl_inner(jpeg, sequential) {
        Err(e) => Err(e),
        Ok(plan) => {
            assert(call_requires(code, (&plan,)));
            code(&plan)
        },
    }
}

/// The codestream alone.
pub open spec fn codestream_of(coded: Coded) -> Result<Vec<u8>, RecodeError> {
    match coded {
        Ok(c) => Ok(c.0),
        Err(e) => Err(e),
    }
}

/// The outcome of recoding into a bare codestream.
pub open spec fn codestream_recoded<F: Fn(&RecodePlan) -> Coded>(
    jpeg: JpegData,
    code: F,
    r: Result<Vec<u8>, RecodeError>,
) -> bool {
    exists|coded: Coded| #[trigger] recodes(jpeg, code, coded) && r == codestream_of(coded)
}

fn take_codestream(coded: Coded) -> (r: Result<Vec<u8>, RecodeError>)
    ensures
        r == codestream_of(coded),
{
    match coded {
        Ok(c) => Ok(c.0),
        Err(e) => Err(e),
    }
}

/// Recodes a file into a bare codestream.
pub fn encode_jpeg_to_jxl<F: Fn(&RecodePlan) -> Coded>(jpeg: &JpegData, code: F) -> (r: Result<
    Vec<u8>,
    RecodeError,
>)
    requires
        jpeg_ok(*jpeg),
        forall|plan: RecodePlan| is_plan(plan, *jpeg) ==> #[trigger] call_requires(code, (&plan,)),
    ensures
        codestream_recoded(*jpeg, code, r),
{
    let coded: Coded = recode(jpeg, code, false);
    take_codestream(coded)
}

/// Like `encode_jpeg_to_jxl`, on the calling thread.
pub fn encode_jpeg_to_jxl_sequential<F: Fn(&RecodePlan) -> Coded>(jpeg: &JpegData, code: F) -> (r:
    Result<Vec<u8>, RecodeError>)
    requires
        jpeg_ok(*jpeg),
        forall|plan: RecodePlan| is_plan(plan, *jpeg) ==> #[trigger] call_requires(code, (&plan,)),
    ensures
        codestream_recoded(*jpeg, code, r),
{
    let coded: Coded = recode(jpeg, code, true);
    take_codestream(coded)
}

/// A codestream or an error, with the bytes as a sequence.
pub open spec fn bytes_view(r: Result<Vec<u8>, RecodeError>) -> Result<Seq<u8>, RecodeError> {
    match r {
        Ok(v) => Ok(v@),
        Err(e) => Err(e),
    }
}

/// What a coder returned, with the bytes as a sequence.
pub open spec fn coded_view(r: Coded) -> Result<(Seq<u8>, usize), RecodeError> {
    match r {
        Ok(c) => Ok((c.0@, c.1)),
        Err(e) => Err(e),
    }
}

/// A coder's answer is a matter of the plan alone.
pub open spec fn answers_alike<F: Fn(&RecodePlan) -> Coded>(code: F) -> bool {
    forall|p: RecodePlan, q: RecodePlan, x: Coded, y: Coded|
        #![trigger call_ensures(code, (&p,), x), call_ensures(code, (&q,), y)]
        p@ == q@ && call_ensures(code, (&p,), x) && call_ensures(code, (&q,), y) ==> coded_view(x)
            == coded_view(y)
}

proof fn lemma_coded_alike<F: Fn(&RecodePlan) -> Coded>(
    jpeg: JpegData,
    code: F,
    a: Coded,
    b: Coded,
)
    requires
        jpeg_ok(jpeg),
        answers_alike(code),
        recodes(jpeg, code, a),
        recodes(jpeg, code, b),
    ensures
        coded_view(a) == coded_view(b),
{
    if jpeg.components@.len() == 1 || jpeg.components@.len() == 3 {
        let p = choose|plan: RecodePlan| #[trigger]
            is_plan(plan, jpeg) && call_ensures(code, (&plan,), a);
        let q = choose|plan: RecodePlan| #[trigger]
            is_plan(plan, jpeg) && call_ensures(code, (&plan,), b);
        lemma_one_plan(p, q, jpeg);
    }
}

/// Recoding on the calling thread and recoding on the pool give the same: the same bytes, or the
/// same error. This holds of every coder whose answer is a matter of the plan alone.
pub proof fn lemma_sequential_same<F: Fn(&RecodePlan) -> Coded>(
    jpeg: JpegData,
    code: F,
    a: Result<Vec<u8>, RecodeError>,
    b: Result<Vec<u8>, RecodeError>,
)
    requires
        jpeg_ok(jpeg),
        answers_alike(code),
        codestream_recoded(jpeg, code, a),
        codestream_recoded(jpeg, code, b),
    ensures
        bytes_view(a) == bytes_view(b),
{
    let x = choose|coded: Coded| #[trigger]
        recodes(jpeg, code, coded) && a == codestream_of(coded);
    let y = choose|coded: Coded| #[trigger]
        recodes(jpeg, code, coded) && b == codestream_of(coded);
    lemma_coded_alike(jpeg, code, x, y);
}

/// The boxes of a container: the codestream in two, with the data that restores the file between
/// them.
pub struct Container {
    pub head: Vec<u8>,
    pub tail: Vec<u8>,
    pub jbrd: Vec<u8>,
    pub exif: Option<Vec<u8>>,
    pub xmp: Option<Vec<u8>>,
}

/// What a file needs besides its codestream.
pub struct SideData {
    /// The data that restores the file, or that there is none.
    pub jbrd: Result<Vec<u8>, RecodeError>,
    pub exif: Option<Vec<u8>>,
    pub xmp: Option<Vec<u8>>,
}

/// The container of a codestream, split behind the file header; the error where there is no data
/// that restores the file.
pub open spec fn contains(
    r: Result<Container, RecodeError>,
    codestream: Seq<u8>,
    header_size: int,
    side: SideData,
) -> bool {
    match side.jbrd {
        Err(e) => r matches Err(e2) && e2 == e,
        Ok(data) => r matches Ok(c) && c.head@ == codestream.take(header_size) && c.tail@
            == codestream.skip(header_size) && c.jbrd == data && c.exif == side.exif && c.xmp
            == side.xmp,
    }
}

/// Puts a codestream into a container.
pub fn fill_container(codestream: Vec<u8>, header_size: usize, side: SideData) -> (r: Result<
    Container,
    RecodeError,
>)
    requires
        header_size <= codestream@.len(),
    ensures
        contains(r, codestream@, header_size as int, side),
{
    let jbrd: Vec<u8> = match side.jbrd {
        Err(e) => {
            return Err(e);
        },
        Ok(data) => data,
    };
    let mut head: Vec<u8> = codestream;
    let ghost whole = head@;
    let tail: Vec<u8> = head.split_off(header_size);
    assert(head@ =~= whole.take(header_size as int));
    assert(tail@ =~= whole.skip(header_size as int));
    Ok(Container { head, tail, jbrd, exif: side.exif, xmp: side.xmp })
}

/// A split codestream is whole again when its parts are joined, and what restores the file is
/// there.
pub proof fn lemma_split_joins(
    r: Result<Container, RecodeError>,
    codestream: Seq<u8>,
    header_size: int,
    side: SideData,
)
    requires
        0 <= header_size <= codestream.len(),
        contains(r, codestream, header_size, side),
        side.jbrd is Ok,
    ensures
        r matches Ok(c) && c.head@ + c.tail@ == codestream && side.jbrd == Ok::<Vec<u8>, RecodeError>(
            c.jbrd,
        ),
{
    assert(codestream.take(header_size) + codestream.skip(header_size) =~= codestream);
}

/// What recoding into a container returns, given what coder and extractor returned.
pub open spec fn recodes_into<F: Fn(&RecodePlan) -> Coded, G: Fn(&JpegData) -> SideData>(
    jpeg: JpegData,
    code: F,
    extract: G,
    r: Result<Container, RecodeError>,
) -> bool {
    exists|coded: Coded| #[trigger]
        recodes(jpeg, code, coded) && boxed(jpeg, extract, coded, r)
}

/// What becomes of a coder's answer: its error, or a container.
pub open spec fn boxed<G: Fn(&JpegData) -> SideData>(
    jpeg: JpegData,
    extract: G,
    coded: Coded,
    r: Result<Container, RecodeError>,
) -> bool {
    match coded {
        Err(e) => r matches Err(e2) && e2 == e,
        Ok(c) => exists|side: SideData| #[trigger]
            call_ensures(extract, (&jpeg,), side) && contains(r, c.0@, c.1 as int, side),
    }
}

fn recode_into<F: Fn(&RecodePlan) -> Coded, G: Fn(&JpegData) -> SideData>(
    jpeg: &JpegData,
    code: F,
    extract: G,
    sequential: bool,
) -> (r: Result<Container, RecodeError>)
    requires
        jpeg_ok(*jpeg),
        forall|plan: RecodePlan| is_plan(plan, *jpeg) ==> #[trigger] call_requires(code, (&plan,)),
        forall|plan: RecodePlan, c: (Vec<u8>, usize)|
            #[trigger] call_ensures(code, (&plan,), Ok::<(Vec<u8>, usize), RecodeError>(c)) ==> c.1
                <= c.0@.len(),
        call_requires(extract, (jpeg,)),
    ensures
        recodes_into(*jpeg, code, extract, r),
{
    let ghost code0 = code;
    let coded: Coded = recode(jpeg, code, sequential);
    match coded {
        Err(e) => Err(e),
        Ok((codestream, header_size)) => {
            let side = extract(jpeg);
            proof {
                let plan = choose|plan: RecodePlan| #[trigger]
                    is_plan(plan, *jpeg) && call_ensures(code0, (&plan,), coded);
                assert(call_ensures(code0, (&plan,), Ok::<(Vec<u8>, usize), RecodeError>((codestream, header_size))));
            }
            fill_container(codestream, header_size, side)
        },
    }
}

/// Recodes a file into a container from which it can be restored.
pub fn encode_jpeg_to_jxl_container<F: Fn(&RecodePlan) -> Coded, G: Fn(&JpegData) -> SideData>(
    jpeg: &JpegData,
    code: F,
    extract: G,
) -> (r: Result<Container, RecodeError>)
    requires
        jpeg_ok(*jpeg),
        forall|plan: RecodePlan| is_plan(plan, *jpeg) ==> #[trigger] call_requires(code, (&plan,)),
        forall|plan: RecodePlan, c: (Vec<u8>, usize)|
            #[trigger] call_ensures(code, (&plan,), Ok::<(Vec<u8>, usize), RecodeError>(c)) ==> c.1
                <= c.0@.len(),
        call_requires(extract, (jpeg,)),
    ensures
        recodes_into(*jpeg, code, extract, r),
{
    recode_into(jpeg, code, extract, false)
}

/// Like `encode_jpeg_to_jxl_container`, on the calling thread.
pub fn encode_jpeg_to_jxl_container_sequential<
    F: Fn(&RecodePlan) -> Coded,
    G: Fn(&JpegData) -> SideData,
>(jpeg: &JpegData, code: F, extract: G) -> (r: Result<Container, RecodeError>)
    requires
        jpeg_ok(*jpeg),
        forall|plan: RecodePlan| is_plan(plan, *jpeg) ==> #[trigger] call_requires(code, (&plan,)),
        forall|plan: RecodePlan, c: (Vec<u8>, usize)|
            #[trigger] call_ensures(code, (&plan,), Ok::<(Vec<u8>, usize), RecodeError>(c)) ==> c.1
                <= c.0@.len(),
        call_requires(extract, (jpeg,)),
    ensures
        recodes_into(*jpeg, code, extract, r),
{
    recode_into(jpeg, code, extract, true)
}

/// What a container holds, as sequences.
pub struct ContainerModel {
    pub head: Seq<u8>,
    pub tail: Seq<u8>,
    pub jbrd: Seq<u8>,
    pub exif: Option<Seq<u8>>,
    pub xmp: Option<Seq<u8>>,
}

/// A container or an error, with the bytes as sequences.
pub open spec fn container_view(r: Result<Container, RecodeError>) -> Result<
    ContainerModel,
    RecodeError,
> {
    match r {
        Ok(c) => Ok(
            ContainerModel {
                head: c.head@,
                tail: c.tail@,
                jbrd: c.jbrd@,
                exif: profile_view(c.exif),
                xmp: profile_view(c.xmp),
            },
        ),
        Err(e) => Err(e),
    }
}

/// What an extractor finds in a file is a matter of the file alone.
pub open spec fn finds_alike<G: Fn(&JpegData) -> SideData>(extract: G, jpeg: JpegData) -> bool {
    forall|x: SideData, y: SideData|
        #![trigger call_ensures(extract, (&jpeg,), x), call_ensures(extract, (&jpeg,), y)]
        call_ensures(extract, (&jpeg,), x) && call_ensures(extract, (&jpeg,), y) ==> {
            &&& bytes_view(x.jbrd) == bytes_view(y.jbrd)
            &&& profile_view(x.exif) == profile_view(y.exif)
            &&& profile_view(x.xmp) == profile_view(y.xmp)
        }
}

/// Recoding into a container on the calling thread and on the pool give the same container, or the
/// same error.
pub proof fn lemma_sequential_container<
    F: Fn(&RecodePlan) -> Coded,
    G: Fn(&JpegData) -> SideData,
>(
    jpeg: JpegData,
    code: F,
    extract: G,
    a: Result<Container, RecodeError>,
    b: Result<Container, RecodeError>,
)
    requires
        jpeg_ok(jpeg),
        answers_alike(code),
        finds_alike(extract, jpeg),
        recodes_into(jpeg, code, extract, a),
        recodes_into(jpeg, code, extract, b),
    ensures
        container_view(a) == container_view(b),
{
    let x = choose|coded: Coded| #[trigger]
        recodes(jpeg, code, coded) && boxed(jpeg, extract, coded, a);
    let y = choose|coded: Coded| #[trigger]
        recodes(jpeg, code, coded) && boxed(jpeg, extract, coded, b);
    lemma_coded_alike(jpeg, code, x, y);
    if x is Ok {
        let s = choose|side: SideData| #[trigger]
            call_ensures(extract, (&jpeg,), side) && contains(
                a,
                x->Ok_0.0@,
                x->Ok_0.1 as int,
                side,
            );
        let t = choose|side: SideData| #[trigger]
            call_ensures(extract, (&jpeg,), side) && contains(
                b,
                y->Ok_0.0@,
                y->Ok_0.1 as int,
                side,
            );
        assert(bytes_view(s.jbrd) == bytes_view(t.jbrd));
    }
}

/// A container holds the codestream that recoding without one gives, split in two parts, and what the
/// extractor found in the file: the data that restores it between the parts, and its metadata.
pub proof fn lemma_container_holds<F: Fn(&RecodePlan) -> Coded, G: Fn(&JpegData) -> SideData>(
    jpeg: JpegData,
    code: F,
    extract: G,
    container: Container,
    r: Result<Vec<u8>, RecodeError>,
)
    requires
        jpeg_ok(jpeg),
        answers_alike(code),
        forall|plan: RecodePlan, c: (Vec<u8>, usize)|
            #[trigger] call_ensures(code, (&plan,), Ok::<(Vec<u8>, usize), RecodeError>(c)) ==> c.1
                <= c.0@.len(),
        recodes_into(jpeg, code, extract, Ok(container)),
        codestream_recoded(jpeg, code, r),
    ensures
        r is Ok,
        container.head@ + container.tail@ == r->Ok_0@,
        exists|side: SideData|
            {
                &&& #[trigger] call_ensures(extract, (&jpeg,), side)
                &&& side.jbrd == Ok::<Vec<u8>, RecodeError>(container.jbrd)
                &&& container.exif == side.exif
                &&& container.xmp == side.xmp
            },
{
    let a = Ok::<Container, RecodeError>(container);
    let x = choose|coded: Coded| #[trigger]
        recodes(jpeg, code, coded) && boxed(jpeg, extract, coded, a);
    let y = choose|coded: Coded| #[trigger]
        recodes(jpeg, code, coded) && r == codestream_of(coded);
    lemma_coded_alike(jpeg, code, x, y);
    let plan = choose|plan: RecodePlan| #[trigger]
        is_plan(plan, jpeg) && call_ensures(code, (&plan,), x);
    assert(call_ensures(code, (&plan,), Ok::<(Vec<u8>, usize), RecodeError>(x->Ok_0)));
    let side = choose|side: SideData| #[trigger]
        call_ensures(extract, (&jpeg,), side) && contains(
            a,
            x->Ok_0.0@,
            x->Ok_0.1 as int,
            side,
        );
    lemma_split_joins(a, x->Ok_0.0@, x->Ok_0.1 as int, side);
}

} // verus!
