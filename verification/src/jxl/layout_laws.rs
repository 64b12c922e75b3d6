//! Where blocks, groups and tiles lie.
use crate::jxl::block::{BlockInfo, ChannelShift, TransformType};
use crate::jxl::block_transform::{rect_fits, rect_of, rect_put};
use crate::jxl::dequant::{lf_values, row_factors};
use crate::jxl::grid::{lemma_flat, Grid, SharedSubgrid};
use crate::jxl::group_result::{clamped, greatest};
use crate::jxl::group_transform::{
    block_at, cells_from, is_input, is_lowest, long_side, per_cell, region_cells, short_side,
    slot_position, BlockCell, BlockInput, Source,
};
use crate::jxl::jpeg_recode::BlockRegion;
use crate::jxl::pass_group::{group_area, stream_index, FrameHeader};
use crate::jxl::plane_blocks::lf_everywhere;
use crate::jxl::region::{ceil_to, floor_to, Region};
use crate::jxl::render::{
    group_pixels, is_render_region, lf_area, lf_part_of, rounded, tile_area, tile_span,
};
use crate::jxl::varblocks::VarblockInfo;
use crate::vp8::planes::lemma_row_col;
use vstd::prelude::*;

verus! {

// ---- rectangles ----
/// Values that are put into a rectangle of a plane are found there row by row, and nothing else
/// changes.
pub proof fn lemma_rect_cell<T>(
    data: Seq<T>,
    width: int,
    x: int,
    y: int,
    w: int,
    h: int,
    values: Seq<T>,
    i: int,
    j: int,
)
    requires
        rect_fits(data.len() as int, width, x, y, w, h),
        0 <= i < width,
        0 <= j,
        j * width + i < data.len(),
    ensures
        ({
            let after = rect_put(data, width, x, y, w, h, values);
            &&& after.len() == data.len()
            &&& x <= i < x + w && y <= j < y + h ==> after[j * width + i] == values[(j - y) * w + (i
                - x)]
            &&& !(x <= i < x + w && y <= j < y + h) ==> after[j * width + i] == data[j * width + i]
        }),
{
    lemma_row_col(j, i, width);
    assert(0 <= j * width) by (nonlinear_arith)
        requires
            0 <= j,
            0 <= width,
    ;
}

/// A rectangle is taken out row by row.
pub proof fn lemma_rect_taken<T>(
    data: Seq<T>,
    width: int,
    x: int,
    y: int,
    w: int,
    h: int,
    i: int,
    j: int,
)
    requires
        0 <= i < w,
        0 <= j < h,
    ensures
        rect_of(data, width, x, y, w, h)[j * w + i] == data[(y + j) * width + x + i],
{
    lemma_row_col(j, i, w);
    lemma_flat(i, j, w, h);
    assert((y + j) * width + (x + i) == (y + j) * width + x + i);
}

// ---- tiles of 64 pixels ----
/// Each row of a block goes by the factor of the tile that holds the row's first pixel.
pub proof fn lemma_row_tile(
    factors: SharedSubgrid<i32>,
    v: VarblockInfo,
    y: int,
    tx: int,
    ty: int,
)
    requires
        0 <= y < 8 * v.dct_select.size().1,
        64 * tx <= 8 * v.shifted_bx < 64 * tx + 64,
        64 * ty <= 8 * v.shifted_by + y < 64 * ty + 64,
    ensures
        row_factors(factors, v)[y] == factors.at(tx, ty),
{
    assert((v.shifted_bx * 8) / 64 == tx);
    assert((v.shifted_by * 8 + y) / 64 == ty);
}

/// The low frequencies of a block are those of its cells, row by row.
pub proof fn lemma_lf_cell(lf: SharedSubgrid<u32>, v: VarblockInfo, i: int, j: int)
    requires
        0 <= i < v.dct_select.size().0,
        0 <= j < v.dct_select.size().1,
    ensures
        lf_values(lf, v)[j * v.dct_select.size().0 + i] == lf.at(
            v.shifted_bx + i,
            v.shifted_by + j,
        ),
{
    let w = v.dct_select.size().0;
    lemma_row_col(j, i, w);
    lemma_flat(i, j, w, v.dct_select.size().1);
    assert(v.dct_select.blocks() == w * v.dct_select.size().1);
}

/// Without high frequencies all pixels of a cell are its low frequency.
pub proof fn lemma_lf_flat(lf: SharedSubgrid<u32>, grid: Grid<u32>, x: int, y: int, i: int, j: int)
    requires
        lf_everywhere(lf, grid),
        0 <= i < 8,
        0 <= j < 8,
        0 <= x,
        0 <= y,
        8 * x + i < grid.width,
        8 * y + j < grid.height,
    ensures
        grid.at(8 * x + i, 8 * y + j) == lf.at(x, y),
{
    assert((8 * x + i) / 8 == x && (8 * y + j) / 8 == y);
}

/// Tiles follow each other without a gap, and only the last one may be narrower.
pub proof fn lemma_tiles_follow(width: int, tile: int)
    requires
        0 <= tile,
        64 * tile < width,
    ensures
        tile_span(width, tile).0 == 64 * tile,
        1 <= tile_span(width, tile).1 <= 64,
        tile_span(width, tile).0 + tile_span(width, tile).1 == if 64 * tile + 64 < width {
            tile_span(width, tile + 1).0
        } else {
            width
        },
{
}

/// Lengths are rounded up to whole blocks, and to pairs of them where a channel is halved.
pub proof fn lemma_rounded(n: int, halved: bool)
    requires
        0 <= n,
    ensures
        !halved ==> n <= rounded(n, halved) < n + 8 && rounded(n, halved) % 8 == 0,
        halved ==> n <= rounded(n, halved) < n + 16 && rounded(n, halved) % 16 == 0,
{
}

// ---- groups ----
proof fn lemma_in_group(g: int, per_row: int, dim: int, x: int, y: int)
    requires
        0 <= g,
        1 <= per_row,
        1 <= dim,
        0 <= x < per_row * dim,
        0 <= y,
    ensures
        (g % per_row * dim <= x < g % per_row * dim + dim && g / per_row * dim <= y < g / per_row
            * dim + dim) == (g == y / dim * per_row + x / dim),
{
    let qx = g % per_row;
    let qy = g / per_row;
    vstd::arithmetic::div_mod::lemma_fundamental_div_mod(g, per_row);
    vstd::arithmetic::div_mod::lemma_mod_bound(g, per_row);
    vstd::arithmetic::div_mod::lemma_fundamental_div_mod(x, dim);
    vstd::arithmetic::div_mod::lemma_mod_bound(x, dim);
    vstd::arithmetic::div_mod::lemma_fundamental_div_mod(y, dim);
    vstd::arithmetic::div_mod::lemma_mod_bound(y, dim);
    let bx = x / dim;
    let by = y / dim;
    assert(0 <= bx < per_row) by (nonlinear_arith)
        requires
            x == dim * bx + x % dim,
            0 <= x % dim < dim,
            0 <= x < per_row * dim,
    ;
    assert(qx * dim <= x < qx * dim + dim <==> qx == bx) by (nonlinear_arith)
        requires
            x == dim * bx + x % dim,
            0 <= x % dim < dim,
    ;
    assert(qy * dim <= y < qy * dim + dim <==> qy == by) by (nonlinear_arith)
        requires
            y == dim * by + y % dim,
            0 <= y % dim < dim,
    ;
    assert(per_row * qy == qy * per_row) by (nonlinear_arith);
    if g == by * per_row + bx {
        lemma_row_col(by, bx, per_row);
    }
}

/// Groups are counted row by row: each pixel of a frame lies in one group, that of its row and
/// column of groups.
pub proof fn lemma_group_of_pixel(g: int, per_row: int, dim: int, x: int, y: int)
    requires
        0 <= g,
        1 <= per_row,
        1 <= dim,
        0 <= x < per_row * dim,
        0 <= y,
        g % per_row * dim <= i32::MAX,
        g / per_row * dim <= i32::MAX,
        dim <= u32::MAX,
    ensures
        group_pixels(g, per_row, dim).has(x, y) == (g == y / dim * per_row + x / dim),
{
    lemma_in_group(g, per_row, dim, x, y);
    vstd::arithmetic::div_mod::lemma_fundamental_div_mod(g, per_row);
    vstd::arithmetic::div_mod::lemma_mod_bound(g, per_row);
    assert(0 <= g % per_row * dim) by (nonlinear_arith)
        requires
            0 <= g % per_row,
            1 <= dim,
    ;
    assert(0 <= g / per_row) by (nonlinear_arith)
        requires
            0 <= g,
            1 <= per_row,
    ;
    assert(0 <= g / per_row * dim) by (nonlinear_arith)
        requires
            0 <= g / per_row,
            1 <= dim,
    ;
}

/// Among the blocks and the tiles of its low-frequency group, of eight by eight groups, a group
/// begins where its first pixel lies in that group.
pub proof fn lemma_group_parts(header: FrameHeader, g: int, blocks: Grid<BlockInfo>)
    requires
        header.groups_per_row >= 1,
        header.group_dim % 64 == 0,
        0 < header.group_dim <= 1024,
        0 <= g,
    ensures
        ({
            let per_row = header.groups_per_row as int;
            let dim = header.group_dim as int;
            let a = group_area(header, g, blocks);
            let t = tile_area(g, per_row, dim, dim, dim);
            let px = (g % per_row) % 8 * dim;
            let py = (g / per_row) % 8 * dim;
            &&& 8 * a.left == px && 8 * a.top == py
            &&& 8 * a.width <= dim && 8 * a.height <= dim
            &&& 64 * t.left == px && 64 * t.top == py
            &&& 64 * t.width == dim && 64 * t.height == dim
            &&& a.left + a.width <= blocks.width
            &&& a.top + a.height <= blocks.height
        }),
{
    let per_row = header.groups_per_row as int;
    let dim = header.group_dim as int;
    let m = dim / 64;
    let kx = (g % per_row) % 8;
    let ky = (g / per_row) % 8;
    assert(dim == 64 * m && dim / 8 == 8 * m);
    assert(kx * dim == 64 * (kx * m)) by (nonlinear_arith)
        requires
            dim == 64 * m,
    ;
    assert(ky * dim == 64 * (ky * m)) by (nonlinear_arith)
        requires
            dim == 64 * m,
    ;
    assert(kx * (8 * m) == 8 * (kx * m)) by (nonlinear_arith);
    assert(ky * (8 * m) == 8 * (ky * m)) by (nonlinear_arith);
    assert(0 <= kx * m <= 7 * 16 && 0 <= ky * m <= 7 * 16) by (nonlinear_arith)
        requires
            0 <= kx < 8,
            0 <= ky < 8,
            0 <= m <= 16,
    ;
    let n = kx * m;
    let o = ky * m;
    assert((64 * n) / 64 == n && (64 * o) / 64 == o);
}

/// Streams of a pass follow each other by group, and those of the next pass follow the last one.
pub proof fn lemma_streams_follow(header: FrameHeader, pass: int, g: int)
    requires
        0 <= pass,
        0 <= g,
    ensures
        stream_index(header, pass, g + 1) == stream_index(header, pass, g) + 1,
        stream_index(header, pass + 1, 0) == stream_index(header, pass, header.num_groups as int),
        stream_index(header, 0, 0) == 3 * header.num_lf_groups + 18,
{
    assert((pass + 1) * header.num_groups == pass * header.num_groups + header.num_groups)
        by (nonlinear_arith);
    assert(0 * header.num_groups == 0);
}

/// What is rendered of a frame holds every pixel of the region that lies in the frame, and no pixel
/// that is further away from the region than a group.
pub proof fn lemma_render_region(r: Region, region: Region, dim: int, w: int, h: int, x: int, y: int)
    requires
        is_render_region(r, region, dim, w, h),
        dim >= 1,
    ensures
        region.has(x, y) && 0 <= x < w && 0 <= y < h ==> r.has(x, y),
        r.has(x, y) ==> 0 <= x < w && 0 <= y < h,
        r.has(x, y) ==> region.left - dim < x < region.right() + dim && region.top - dim < y
            < region.bottom() + dim,
{
    lemma_aligned(region.left as int, region.width as int, dim);
    lemma_aligned(region.top as int, region.height as int, dim);
    let known = r.has(x, y);
}

proof fn lemma_aligned(at: int, len: int, dim: int)
    requires
        dim >= 1,
    ensures
        ({
            let a = floor_to(at, dim);
            let e = a + ceil_to(len + (at - a), dim);
            &&& at - dim < a <= at
            &&& at + len <= e < at + len + dim
        }),
{
    vstd::arithmetic::div_mod::lemma_mod_bound(at, dim);
    let n = len + at % dim;
    let q = (n + dim - 1) / dim;
    vstd::arithmetic::div_mod::lemma_fundamental_div_mod(n + dim - 1, dim);
    vstd::arithmetic::div_mod::lemma_mod_bound(n + dim - 1, dim);
    assert(dim * q == q * dim) by (nonlinear_arith);
}

/// Low frequencies of whole blocks are taken for a region of whole blocks, and one more block on
/// each side where they are smoothed.
pub proof fn lemma_lf_part(aligned: Region, skip: bool, x: int, y: int)
    requires
        aligned.left % 8 == 0,
        aligned.top % 8 == 0,
        aligned.width % 8 == 0,
        aligned.height % 8 == 0,
        -0x4000_0000 <= aligned.left,
        -0x4000_0000 <= aligned.top,
        aligned.width <= 0x4000_0000,
        aligned.height <= 0x4000_0000,
    ensures
        skip ==> lf_part_of(aligned, skip).has(x, y) == aligned.has(8 * x, 8 * y),
        !skip && aligned.width > 0 && aligned.height > 0 ==> lf_part_of(aligned, skip).has(x, y)
            == (exists|i: int, j: int|
            -1 <= i <= 1 && -1 <= j <= 1 && #[trigger] aligned.has(8 * (x + i), 8 * (y + j))),
{
    let r = lf_part_of(aligned, skip);
    if !skip && aligned.width > 0 && aligned.height > 0 {
        let i: int = if 8 * x < aligned.left {
            1
        } else if 8 * x >= aligned.right() {
            -1
        } else {
            0
        };
        let j: int = if 8 * y < aligned.top {
            1
        } else if 8 * y >= aligned.bottom() {
            -1
        } else {
            0
        };
        if r.has(x, y) {
            assert(aligned.has(8 * (x + i), 8 * (y + j)));
        }
    }
}

// ---- blocks of an encoder ----
/// A block is handed on with its own pixels, row by row, and its tile.
pub proof fn lemma_input_pixel(
    inp: BlockInput,
    source: Source,
    cell: BlockCell,
    quant: i32,
    c: int,
    i: int,
    j: int,
)
    requires
        is_input(inp, source, cell, quant),
        0 <= c < 3,
        0 <= i < 8 * cell.dct_select.size().0,
        0 <= j < 8 * cell.dct_select.size().1,
    ensures
        inp.pixels@[c]@[j * (8 * cell.dct_select.size().0) + i] == source.planes@[c]@[(8 * cell.y
            + j) * source.stride + 8 * cell.x + i],
        64 * inp.tile_x <= 8 * cell.x < 64 * inp.tile_x + 64,
        64 * inp.tile_y <= 8 * cell.y < 64 * inp.tile_y + 64,
{
    let w = cell.dct_select.size().0;
    let h = cell.dct_select.size().1;
    assert(inp.pixels@[c]@ == rect_of(
        source.planes@[c]@,
        source.stride as int,
        8 * cell.x,
        8 * cell.y,
        8 * w,
        8 * h,
    ));
    lemma_rect_taken(
        source.planes@[c]@,
        source.stride as int,
        8 * cell.x,
        8 * cell.y,
        8 * w,
        8 * h,
        i,
        j,
    );
}

/// Every block that begins in a region is listed.
pub proof fn lemma_cell_listed(
    blocks: Grid<BlockInfo>,
    forced_dct8: bool,
    region: BlockRegion,
    x: int,
    y: int,
    bx: int,
    by: int,
)
    requires
        region.start_bx <= bx < region.end_bx,
        by < region.end_by,
        block_at(blocks, forced_dct8, bx, by) is Some,
        region.start_bx <= x,
        y < by || (y == by && x <= bx),
    ensures
        cells_from(blocks, forced_dct8, region, x, y).contains(
            BlockCell {
                x: bx as usize,
                y: by as usize,
                dct_select: block_at(blocks, forced_dct8, bx, by)->0,
            },
        ),
    decreases region.end_by - y, region.end_bx - x,
{
    let list = cells_from(blocks, forced_dct8, region, x, y);
    let cell = BlockCell {
        x: bx as usize,
        y: by as usize,
        dct_select: block_at(blocks, forced_dct8, bx, by)->0,
    };
    if x >= region.end_bx {
        lemma_cell_listed(
            blocks,
            forced_dct8,
            region,
            region.start_bx as int,
            y + 1,
            bx,
            by,
        );
    } else if x == bx && y == by {
        assert(list[0] == cell);
    } else {
        lemma_cell_listed(blocks, forced_dct8, region, x + 1, y, bx, by);
        let rest = cells_from(blocks, forced_dct8, region, x + 1, y);
        let i = rest.index_of(cell);
        if block_at(blocks, forced_dct8, x, y) is Some {
            assert(list[i + 1] == cell);
        }
    }
}

/// Where blocks are forced to be small, every cell of a region is a block of its own.
pub proof fn lemma_forced_cells(
    blocks: Grid<BlockInfo>,
    region: BlockRegion,
    bx: int,
    by: int,
)
    requires
        region.start_bx <= bx < region.end_bx,
        region.start_by <= by < region.end_by,
    ensures
        region_cells(blocks, true, region).contains(
            BlockCell { x: bx as usize, y: by as usize, dct_select: TransformType::Dct8 },
        ),
{
    lemma_cell_listed(
        blocks,
        true,
        region,
        region.start_bx as int,
        region.start_by as int,
        bx,
        by,
    );
}

/// The cell of a coefficient is where the coefficient lies, in eights; blocks that are higher than
/// wide lie on their side.
pub proof fn lemma_slot_cell(t: TransformType, px: int, py: int, k: int)
    requires
        0 <= px < t.size().0,
        0 <= py < t.size().1,
        0 <= k < 64,
    ensures
        ({
            let p = slot_position(t, px, py, k);
            let row = p / (8 * long_side(t));
            let col = p % (8 * long_side(t));
            &&& (row / 8, col / 8) == if t.size().1 > t.size().0 {
                (px, py)
            } else {
                (py, px)
            }
            &&& 8 * (row % 8) + col % 8 == k
        }),
{
    let tall = t.size().1 > t.size().0;
    let a = (if tall {
        px
    } else {
        py
    }) * 8 + k / 8;
    let b = (if tall {
        py
    } else {
        px
    }) * 8 + k % 8;
    let l = 8 * long_side(t);
    assert(long_side(t) * 8 == l);
    assert(slot_position(t, px, py, k) == a * l + b);
    lemma_row_col(a, b, l);
}

/// The lowest frequencies are those of as many rows and columns as the block has cells along its
/// sides.
pub proof fn lemma_lowest(t: TransformType, row: int, col: int)
    requires
        0 <= row,
        0 <= col < 8 * long_side(t),
    ensures
        is_lowest(t, row * (8 * long_side(t)) + col) == (row < short_side(t) && col < long_side(t)),
        short_side(t) * long_side(t) == t.blocks(),
        short_side(t) <= long_side(t),
{
    lemma_row_col(row, col, 8 * long_side(t));
    assert(long_side(t) * 8 == 8 * long_side(t));
    let a = t.size().0;
    let b = t.size().1;
    assert(a * b == b * a) by (nonlinear_arith);
}

/// The count that is told of each cell is the block's, spread over its cells and rounded up.
pub proof fn lemma_per_cell(nz: int, t: TransformType)
    requires
        0 <= nz,
        1 <= t.blocks(),
    ensures
        per_cell(nz, t) * t.blocks() >= nz,
        per_cell(nz, t) > 0 ==> (per_cell(nz, t) - 1) * t.blocks() < nz,
        (per_cell(nz, t) == 0) == (nz == 0),
{
    let b = t.blocks();
    let q = per_cell(nz, t);
    vstd::arithmetic::div_mod::lemma_fundamental_div_mod(nz + b - 1, b);
    vstd::arithmetic::div_mod::lemma_mod_bound(nz + b - 1, b);
    assert(b * q == q * b) by (nonlinear_arith);
    assert((q - 1) * b == q * b - b) by (nonlinear_arith);
    assert((q == 0) == (nz == 0)) by (nonlinear_arith)
        requires
            nz + b - 1 == b * q + (nz + b - 1) % b,
            0 <= (nz + b - 1) % b < b,
            nz >= 0,
            b >= 1,
    ;
}

/// A block's factor is the greatest of the field's and those of its channels.
pub proof fn lemma_greatest(field: u8, f: Seq<i32>)
    requires
        f.len() == 3,
    ensures
        ({
            let g = greatest(field, f);
            &&& g >= field && g >= f[0] && g >= f[1] && g >= f[2]
            &&& g == field || g == f[0] || g == f[1] || g == f[2]
        }),
{
}

/// Factors are kept within a byte that is not zero.
pub proof fn lemma_factor_kept(q: i32)
    ensures
        1 <= clamped(q) <= 255,
        1 <= q <= 255 ==> clamped(q) == q,
        q > 255 ==> clamped(q) == 255,
        q < 1 ==> clamped(q) == 1,
{
}

/// The low frequencies of a group begin at its first block, counted from the part of the frame that
/// was decoded.
pub proof fn lemma_group_lf(
    g: int,
    per_row: int,
    dim: int,
    width: int,
    height: int,
    region: Region,
    shift: ChannelShift,
)
    requires
        0 <= g,
        1 <= per_row,
        1 <= dim,
        0 <= width,
        0 <= height,
        dim % 8 == 0,
        g % per_row * dim <= i32::MAX,
        g / per_row * dim <= i32::MAX,
        8 * region.left <= g % per_row * dim,
        8 * region.top <= g / per_row * dim,
        g % per_row * dim + width <= 8 * region.right(),
        g / per_row * dim + height <= 8 * region.bottom(),
        !shift.has_h_subsample && !shift.h_subsample,
        !shift.has_v_subsample && !shift.v_subsample,
    ensures
        ({
            let a = lf_area(g, per_row, dim, width, height, region, shift);
            &&& 8 * (region.left + a.left) == g % per_row * dim
            &&& 8 * (region.top + a.top) == g / per_row * dim
            &&& width <= 8 * a.width < width + 8
            &&& height <= 8 * a.height < height + 8
        }),
{
    let m = dim / 8;
    let qx = g % per_row;
    let qy = g / per_row;
    assert(dim == 8 * m);
    assert(qx * dim == 8 * (qx * m)) by (nonlinear_arith)
        requires
            dim == 8 * m,
    ;
    assert(qy * dim == 8 * (qy * m)) by (nonlinear_arith)
        requires
            dim == 8 * m,
    ;
    let a = qx * m;
    let b = qy * m;
    assert(qx * dim / 8 == a && qy * dim / 8 == b);
}

} // verus!
