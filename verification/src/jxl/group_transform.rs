//! Blocks of a group: their pixels, their coefficients, and where these go.
use crate::jxl::block::{BlockInfo, TransformType};
use crate::jxl::block_transform::{get_rect, rect_of};
use crate::jxl::grid::{lemma_flat, Grid};
use crate::jxl::jpeg_recode::BlockRegion;
use vstd::prelude::*;

verus! {

/// Blocks in a row of a tile, for which chroma is predicted from luma in one way.
pub const TILE_DIM_IN_BLOCKS: usize = 8;

/// A block of a group: its cell and its transform.
#[derive(Clone, Copy)]
pub struct BlockCell {
    pub x: usize,
    pub y: usize,
    pub dct_select: TransformType,
}

/// The block that starts at a cell, if one does. Every cell has one where all transforms are
/// forced to be the smallest.
pub open spec fn block_at(blocks: Grid<BlockInfo>, forced_dct8: bool, x: int, y: int) -> Option<
    TransformType,
> {
    if forced_dct8 {
        Some(TransformType::Dct8)
    } else {
        match blocks.at(x, y) {
            BlockInfo::Data { dct_select, .. } => Some(dct_select),
            _ => None,
        }
    }
}

/// The blocks that start in a region, from column `x` of row `y` on.
pub open spec fn cells_from(
    blocks: Grid<BlockInfo>,
    forced_dct8: bool,
    region: BlockRegion,
    x: int,
    y: int,
) -> Seq<BlockCell>
    decreases region.end_by - y, region.end_bx - x,
{
    if y >= region.end_by {
        Seq::empty()
    } else if x >= region.end_bx {
        cells_from(blocks, forced_dct8, region, region.start_bx as int, y + 1)
    } else {
        match block_at(blocks, forced_dct8, x, y) {
            Some(t) => seq![BlockCell { x: x as usize, y: y as usize, dct_select: t }]
                + cells_from(blocks, forced_dct8, region, x + 1, y),
            None => cells_from(blocks, forced_dct8, region, x + 1, y),
        }
    }
}

pub open spec fn region_cells(
    blocks: Grid<BlockInfo>,
    forced_dct8: bool,
    region: BlockRegion,
) -> Seq<BlockCell> {
    cells_from(blocks, forced_dct8, region, region.start_bx as int, region.start_by as int)
}

/// The block lies within the region.
pub open spec fn cell_inside(region: BlockRegion, cell: BlockCell) -> bool {
    &&& region.start_bx <= cell.x
    &&& cell.x + cell.dct_select.size().0 <= region.end_bx
    &&& region.start_by <= cell.y
    &&& cell.y + cell.dct_select.size().1 <= region.end_by
}

/// No block of a region reaches out of it.
pub open spec fn blocks_inside(
    blocks: Grid<BlockInfo>,
    forced_dct8: bool,
    region: BlockRegion,
) -> bool {
    forall|x: int, y: int|
        #![trigger block_at(blocks, forced_dct8, x, y)]
        region.start_bx <= x < region.end_bx && region.start_by <= y < region.end_by ==> (block_at(
            blocks,
            forced_dct8,
            x,
            y,
        ) matches Some(t) ==> cell_inside(
            region,
            BlockCell { x: x as usize, y: y as usize, dct_select: t },
        ))
}

pub fn list_cells(blocks: &Grid<BlockInfo>, forced_dct8: bool, region: &BlockRegion) -> (r: Vec<
    BlockCell,
>)
    requires
        blocks.wf(),
        region.start_bx <= region.end_bx <= blocks.width,
        region.end_by <= blocks.height,
        blocks_inside(*blocks, forced_dct8, *region),
    ensures
        r@ == region_cells(*blocks, forced_dct8, *region),
        forall|i: int| 0 <= i < r@.len() ==> cell_inside(*region, #[trigger] r@[i]),
{
    let mut r: Vec<BlockCell> = Vec::new();
    let ghost goal = region_cells(*blocks, forced_dct8, *region);
    let mut y: usize = region.start_by;
    let mut x: usize = region.start_bx;
    assert(r@ + goal =~= goal);
    while y < region.end_by
        invariant
            blocks.wf(),
            region.start_bx <= x <= region.end_bx <= blocks.width,
            region.start_by <= y,
            region.end_by <= blocks.height,
            blocks_inside(*blocks, forced_dct8, *region),
            r@ + cells_from(*blocks, forced_dct8, *region, x as int, y as int) == goal,
            forall|i: int| 0 <= i < r@.len() ==> cell_inside(*region, #[trigger] r@[i]),
        decreases region.end_by - y, region.end_bx - x,
    {
        if x >= region.end_bx {
            x = region.start_bx;
            y = y + 1;
        } else {
            let found: Option<TransformType> = if forced_dct8 {
                Some(TransformType::Dct8)
            } else {
                match blocks.get(x, y) {
                    BlockInfo::Data { dct_select, .. } => Some(dct_select),
                    _ => None,
                }
            };
            assert(found == block_at(*blocks, forced_dct8, x as int, y as int));
            if let Some(t) = found {
                let ghost before = r@;
                let ghost rest = cells_from(*blocks, forced_dct8, *region, x + 1, y as int);
                let cell = BlockCell { x, y, dct_select: t };
                r.push(cell);
                assert(before + (seq![cell] + rest) =~= r@ + rest);
            }
            x = x + 1;
        }
    }
    assert(r@ + Seq::<BlockCell>::empty() =~= r@);
    r
}

// ---- one block ----
/// What the kernel gets of a block.
pub struct BlockInput {
    pub x: usize,
    pub y: usize,
    pub dct_select: TransformType,
    /// Pixels of the three channels.
    pub pixels: Vec<Vec<u32>>,
    /// The quantizer factor.
    pub quant: i32,
    /// The tile whose chroma prediction applies.
    pub tile_x: usize,
    pub tile_y: usize,
}

/// What the kernel makes of a block.
pub struct BlockOutput {
    /// Low frequencies of the three channels, one per cell of the block.
    pub float_dc: Vec<Vec<u32>>,
    pub quant_dc: Vec<Vec<i16>>,
    /// Coefficients of the three channels, in rows as long as the longer side of the block.
    pub coeffs: Vec<Vec<i32>>,
}

pub open spec fn output_ok(o: BlockOutput, t: TransformType) -> bool {
    &&& o.float_dc@.len() == 3
    &&& o.quant_dc@.len() == 3
    &&& o.coeffs@.len() == 3
    &&& forall|c: int| 0 <= c < 3 ==> (#[trigger] o.float_dc@[c])@.len() == t.blocks()
    &&& forall|c: int| 0 <= c < 3 ==> (#[trigger] o.quant_dc@[c])@.len() == t.blocks()
    &&& forall|c: int| 0 <= c < 3 ==> (#[trigger] o.coeffs@[c])@.len() == 64 * t.blocks()
}

/// The image that is transformed: planes of `stride` pixels in a row, and quantizer factors.
pub struct Source {
    pub planes: Vec<Vec<u32>>,
    pub stride: usize,
    pub quant_field: Vec<u8>,
    pub xsize_blocks: usize,
    pub ysize_blocks: usize,
}

impl Source {
    /// Planes and factors hold every block.
    pub open spec fn wf(&self) -> bool {
        &&& self.planes@.len() == 3
        &&& self.stride >= 8 * self.xsize_blocks
        &&& self.stride >= 1
        &&& forall|c: int|
            0 <= c < 3 ==> (#[trigger] self.planes@[c])@.len() >= (8 * self.ysize_blocks)
                * self.stride
        &&& self.quant_field@.len() == self.xsize_blocks * self.ysize_blocks
    }
}

/// The quantizer factor that is given for a block.
pub open spec fn field_at(source: Source, cell: BlockCell) -> u8 {
    source.quant_field@[cell.y * source.xsize_blocks + cell.x]
}

/// A kernel's input for a block that is quantized by a factor.
pub open spec fn is_input(inp: BlockInput, source: Source, cell: BlockCell, quant: i32) -> bool {
    let w = cell.dct_select.size().0;
    let h = cell.dct_select.size().1;
    &&& inp.x == cell.x
    &&& inp.y == cell.y
    &&& inp.dct_select == cell.dct_select
    &&& inp.pixels@.len() == 3
    &&& forall|c: int|
        0 <= c < 3 ==> (#[trigger] inp.pixels@[c])@ == rect_of(
            source.planes@[c]@,
            source.stride as int,
            8 * cell.x,
            8 * cell.y,
            8 * w,
            8 * h,
        )
    &&& inp.quant == quant
    &&& inp.tile_x == cell.x as int / 8
    &&& inp.tile_y == cell.y as int / 8
}

pub fn make_input(source: &Source, cell: BlockCell) -> (r: BlockInput)
    requires
        source.wf(),
        cell.x + cell.dct_select.size().0 <= source.xsize_blocks,
        cell.y + cell.dct_select.size().1 <= source.ysize_blocks,
    ensures
        is_input(r, *source, cell, field_at(*source, cell) as i32),
{
    let plane: usize = source.planes[0].len();
    proof {
        let b = 8 * source.ysize_blocks;
        let s = source.stride as int;
        assert(source.planes@[0]@.len() >= b * s);
        assert(b <= b * s) by (nonlinear_arith)
            requires
                b >= 0,
                s >= 1,
        ;
    }
    let (w8, h8) = cell.dct_select.dct_select_size();
    let w: usize = w8 as usize * 8;
    let h: usize = h8 as usize * 8;
    let x: usize = cell.x * 8;
    let y: usize = cell.y * 8;
    proof {
        let a = (y + h) as int;
        let b = 8 * source.ysize_blocks;
        let s = source.stride as int;
        assert(a * s <= b * s) by (nonlinear_arith)
            requires
                a <= b,
                s >= 0,
        ;
        assert(source.planes@[0]@.len() >= b * s && source.planes@[1]@.len() >= b * s
            && source.planes@[2]@.len() >= b * s);
        lemma_flat(
            cell.x as int,
            cell.y as int,
            source.xsize_blocks as int,
            source.ysize_blocks as int,
        );
    }
    let mut pixels: Vec<Vec<u32>> = Vec::new();
    pixels.push(get_rect(&source.planes[0], source.stride, x, y, w, h));
    pixels.push(get_rect(&source.planes[1], source.stride, x, y, w, h));
    pixels.push(get_rect(&source.planes[2], source.stride, x, y, w, h));
    let total: usize = source.quant_field.len();
    BlockInput {
        x: cell.x,
        y: cell.y,
        dct_select: cell.dct_select,
        pixels,
        quant: source.quant_field[cell.y * source.xsize_blocks + cell.x] as i32,
        tile_x: cell.x / TILE_DIM_IN_BLOCKS,
        tile_y: cell.y / TILE_DIM_IN_BLOCKS,
    }
}

// ---- coefficients of a block ----
/// The longer and the shorter side of a block, in cells.
pub open spec fn long_side(t: TransformType) -> int {
    if t.size().1 > t.size().0 {
        t.size().1
    } else {
        t.size().0
    }
}

pub open spec fn short_side(t: TransformType) -> int {
    if t.size().1 > t.size().0 {
        t.size().0
    } else {
        t.size().1
    }
}

/// Position among the coefficients of coefficient `k` of the cell at column `px` of row `py`.
/// Coefficients of blocks that are higher than wide lie transposed.
pub open spec fn slot_position(t: TransformType, px: int, py: int, k: int) -> int {
    let tall = t.size().1 > t.size().0;
    let sx = if tall {
        py
    } else {
        px
    };
    let sy = if tall {
        px
    } else {
        py
    };
    (sy * 8 + k / 8) * (long_side(t) * 8) + (sx * 8 + k % 8)
}

pub open spec fn slot_of(coeffs: Seq<i32>, t: TransformType, px: int, py: int) -> Seq<i32> {
    Seq::new(64, |k: int| coeffs[slot_position(t, px, py, k)])
}

/// The cells' coefficients in row order.
pub open spec fn slots_of(coeffs: Seq<i32>, t: TransformType) -> Seq<Seq<i32>> {
    Seq::new(
        t.blocks() as nat,
        |p: int| slot_of(coeffs, t, p % t.size().0, p / t.size().0),
    )
}

/// Whether a coefficient is one of the lowest frequencies, which stand for the cells' averages.
pub open spec fn is_lowest(t: TransformType, p: int) -> bool {
    p / (long_side(t) * 8) < short_side(t) && p % (long_side(t) * 8) < long_side(t)
}

/// Number of nonzero coefficients among the first `n`, without the lowest frequencies.
pub open spec fn count_nonzero(coeffs: Seq<i32>, t: TransformType, n: nat) -> int
    decreases n,
{
    if n == 0 {
        0
    } else {
        count_nonzero(coeffs, t, (n - 1) as nat) + if coeffs[n - 1] != 0 && !is_lowest(t, n - 1) {
            1int
        } else {
            0
        }
    }
}

pub open spec fn nonzeros_of(coeffs: Seq<i32>, t: TransformType) -> int {
    count_nonzero(coeffs, t, (64 * t.blocks()) as nat)
}

/// Nonzero coefficients per cell, rounded up.
pub open spec fn per_cell(nz: int, t: TransformType) -> int {
    (nz + t.blocks() - 1) / t.blocks()
}

pub proof fn lemma_sides(t: TransformType)
    ensures
        1 <= long_side(t) <= 32,
        1 <= short_side(t) <= 32,
        long_side(t) * short_side(t) == t.blocks(),
        t.blocks() == t.size().0 * t.size().1,
        1 <= t.size().0 <= 32,
        1 <= t.size().1 <= 32,
{
    assert(t.size().0 * t.size().1 == t.size().1 * t.size().0) by (nonlinear_arith);
}

/// Every slot position lies among the coefficients.
proof fn lemma_slot_position(t: TransformType, px: int, py: int, k: int)
    requires
        0 <= px < t.size().0,
        0 <= py < t.size().1,
        0 <= k < 64,
    ensures
        0 <= slot_position(t, px, py, k) < 64 * t.blocks(),
{
    lemma_sides(t);
    let tall = t.size().1 > t.size().0;
    let sx = if tall {
        py
    } else {
        px
    };
    let sy = if tall {
        px
    } else {
        py
    };
    let l = long_side(t) * 8;
    let h = short_side(t) * 8;
    lemma_flat(sx * 8 + k % 8, sy * 8 + k / 8, l, h);
    assert(l * h == 64 * t.blocks()) by (nonlinear_arith)
        requires
            l == long_side(t) * 8,
            h == short_side(t) * 8,
            long_side(t) * short_side(t) == t.blocks(),
    ;
}

/// Different coefficients of different cells come from different positions.
pub proof fn lemma_slots_differ(
    t: TransformType,
    px: int,
    py: int,
    k: int,
    px2: int,
    py2: int,
    k2: int,
)
    requires
        0 <= px < t.size().0,
        0 <= py < t.size().1,
        0 <= k < 64,
        0 <= px2 < t.size().0,
        0 <= py2 < t.size().1,
        0 <= k2 < 64,
        slot_position(t, px, py, k) == slot_position(t, px2, py2, k2),
    ensures
        px == px2,
        py == py2,
        k == k2,
{
    lemma_sides(t);
    let tall = t.size().1 > t.size().0;
    let l = long_side(t) * 8;
    let (sx, sy, sx2, sy2) = if tall {
        (py, px, py2, px2)
    } else {
        (px, py, px2, py2)
    };
    crate::jxl::grid::lemma_flat_injective(
        sx * 8 + k % 8,
        sy * 8 + k / 8,
        sx2 * 8 + k2 % 8,
        sy2 * 8 + k2 / 8,
        l,
    );
}

/// Coefficients of one cell.
fn read_slot(coeffs: &Vec<i32>, t: TransformType, px: usize, py: usize) -> (r: [i32; 64])
    requires
        coeffs@.len() == 64 * t.blocks(),
        px < t.size().0,
        py < t.size().1,
    ensures
        r@ == slot_of(coeffs@, t, px as int, py as int),
{
    let (w, h) = t.dct_select_size();
    let tall: bool = h > w;
    let long: usize = if tall {
        h as usize
    } else {
        w as usize
    };
    let sx: usize = if tall {
        py
    } else {
        px
    };
    let sy: usize = if tall {
        px
    } else {
        py
    };
    let mut r: [i32; 64] = [0i32; 64];
    let mut k: usize = 0;
    let total: usize = coeffs.len();
    while k < 64
        invariant
            k <= 64,
            coeffs@.len() == 64 * t.blocks(),
            total == coeffs@.len(),
            px < t.size().0,
            py < t.size().1,
            tall == (t.size().1 > t.size().0),
            sx == (if tall {
                py
            } else {
                px
            }),
            sy == (if tall {
                px
            } else {
                py
            }),
            long == long_side(t),
            1 <= long <= 32,
            sx < 32,
            sy < 32,
            r@.len() == 64,
            forall|i: int|
                0 <= i < k ==> #[trigger] r@[i] == slot_of(coeffs@, t, px as int, py as int)[i],
        decreases 64 - k,
    {
        proof {
            lemma_slot_position(t, px as int, py as int, k as int);
            let a = (sy * 8 + k / 8) as int;
            let b = (long * 8) as int;
            assert(0 <= a * b <= 256 * 256) by (nonlinear_arith)
                requires
                    0 <= a <= 256,
                    0 <= b <= 256,
            ;
        }
        r[k] = coeffs[(sy * 8 + k / 8) * (long * 8) + (sx * 8 + k % 8)];
        k = k + 1;
    }
    assert(r@ =~= slot_of(coeffs@, t, px as int, py as int));
    r
}

pub open spec fn array_views(s: Seq<[i32; 64]>) -> Seq<Seq<i32>> {
    Seq::new(s.len(), |p: int| s[p]@)
}

/// Coefficients of all cells in row order.
pub fn read_slots(coeffs: &Vec<i32>, t: TransformType) -> (r: Vec<[i32; 64]>)
    requires
        coeffs@.len() == 64 * t.blocks(),
    ensures
        array_views(r@) == slots_of(coeffs@, t),
{
    let (w, h) = t.dct_select_size();
    let mut r: Vec<[i32; 64]> = Vec::new();
    let ghost goal = slots_of(coeffs@, t);
    proof {
        lemma_sides(t);
    }
    let mut y: usize = 0;
    let mut x: usize = 0;
    while y < h as usize
        invariant
            x <= w,
            y <= h,
            y == h ==> x == 0,
            1 <= w <= 32,
            1 <= h <= 32,
            w == t.size().0,
            h == t.size().1,
            t.blocks() == w * h,
            coeffs@.len() == 64 * t.blocks(),
            goal == slots_of(coeffs@, t),
            r@.len() == y * w + x,
            forall|p: int| 0 <= p < r@.len() ==> (#[trigger] r@[p])@ == goal[p],
        decreases h - y, w - x,
    {
        if x >= w as usize {
            assert((y + 1) * w == y * w + w) by (nonlinear_arith);
            x = 0;
            y = y + 1;
        } else {
            proof {
                lemma_flat(x as int, y as int, w as int, h as int);
                crate::vp8::planes::lemma_row_col(y as int, x as int, w as int);
            }
            r.push(read_slot(coeffs, t, x, y));
            x = x + 1;
        }
    }
    assert(y * w + x == w * h) by (nonlinear_arith)
        requires
            y == h,
            x == 0,
    ;
    assert(array_views(r@) =~= goal);
    r
}

pub fn count_coeffs(coeffs: &Vec<i32>, t: TransformType) -> (r: u16)
    requires
        coeffs@.len() == 64 * t.blocks(),
        t.blocks() <= 1023,
    ensures
        r == nonzeros_of(coeffs@, t),
        r <= 64 * t.blocks(),
{
    let (w, h) = t.dct_select_size();
    let long: usize = if h > w {
        h as usize
    } else {
        w as usize
    };
    let short: usize = if h > w {
        w as usize
    } else {
        h as usize
    };
    let row: usize = long * 8;
    let mut n: usize = 0;
    let mut count: u16 = 0;
    while n < coeffs.len()
        invariant
            n <= coeffs@.len(),
            coeffs@.len() == 64 * t.blocks(),
            t.blocks() <= 1023,
            long == long_side(t),
            short == short_side(t),
            row == long * 8,
            row >= 8,
            count <= n,
            count == count_nonzero(coeffs@, t, n as nat),
        decreases coeffs@.len() - n,
    {
        if coeffs[n] != 0 && !(n / row < short && n % row < long) {
            count = count + 1;
        }
        n = n + 1;
    }
    count
}

} // verus!
