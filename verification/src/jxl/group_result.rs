//! Results of a group, and of an image put together from its groups.
use crate::jxl::block::{BlockInfo, TransformType};
use crate::jxl::block_transform::{put_rect, rect_put};
use crate::jxl::grid::{lemma_flat, Grid};
use crate::jxl::group_transform::{
    array_views, blocks_inside, cell_inside, count_coeffs, field_at, is_input, lemma_sides, list_cells,
    make_input, nonzeros_of, output_ok, per_cell, read_slots, region_cells, slots_of, BlockCell,
    BlockInput, BlockOutput, Source,
};
use crate::jxl::jpeg_recode::BlockRegion;
use vstd::prelude::*;

verus! {

/// Values of a channel, one of each per cell.
pub struct ChannelResult {
    pub quant_dc: Vec<i16>,
    pub quant_ac: Vec<[i32; 64]>,
    pub nzeros: Vec<u8>,
    pub raw_nzeros: Vec<u16>,
    pub float_dc: Vec<u32>,
}

pub struct ChannelModel {
    pub quant_dc: Seq<i16>,
    pub quant_ac: Seq<Seq<i32>>,
    pub nzeros: Seq<u8>,
    pub raw_nzeros: Seq<u16>,
    pub float_dc: Seq<u32>,
}

impl View for ChannelResult {
    type V = ChannelModel;

    open spec fn view(&self) -> ChannelModel {
        ChannelModel {
            quant_dc: self.quant_dc@,
            quant_ac: array_views(self.quant_ac@),
            nzeros: self.nzeros@,
            raw_nzeros: self.raw_nzeros@,
            float_dc: self.float_dc@,
        }
    }
}

impl ChannelModel {
    pub open spec fn has_len(&self, n: int) -> bool {
        &&& self.quant_dc.len() == n
        &&& self.quant_ac.len() == n
        &&& self.nzeros.len() == n
        &&& self.raw_nzeros.len() == n
        &&& self.float_dc.len() == n
    }
}

/// Nothing but zeros.
pub open spec fn zero_channel(n: nat) -> ChannelModel {
    ChannelModel {
        quant_dc: Seq::new(n, |p: int| 0i16),
        quant_ac: Seq::new(n, |p: int| Seq::new(64, |k: int| 0i32)),
        nzeros: Seq::new(n, |p: int| 0u8),
        raw_nzeros: Seq::new(n, |p: int| 0u16),
        float_dc: Seq::new(n, |p: int| 0u32),
    }
}

pub fn new_channel(n: usize) -> (r: ChannelResult)
    ensures
        r@ == zero_channel(n as nat),
{
    let mut quant_ac: Vec<[i32; 64]> = Vec::new();
    let mut i: usize = 0;
    while i < n
        invariant
            i <= n,
            quant_ac@.len() == i,
            forall|p: int| 0 <= p < i ==> (#[trigger] quant_ac@[p])@ == Seq::new(64, |k: int| 0i32),
        decreases n - i,
    {
        let zero: [i32; 64] = [0i32; 64];
        assert(zero@ =~= Seq::new(64, |k: int| 0i32));
        quant_ac.push(zero);
        i = i + 1;
    }
    let r = ChannelResult {
        quant_dc: vec![0; n],
        quant_ac,
        nzeros: vec![0; n],
        raw_nzeros: vec![0; n],
        float_dc: vec![0; n],
    };
    proof {
        let z = zero_channel(n as nat);
        assert(r@.quant_dc =~= z.quant_dc);
        assert(r@.quant_ac =~= z.quant_ac);
        assert(r@.nzeros =~= z.nzeros);
        assert(r@.raw_nzeros =~= z.raw_nzeros);
        assert(r@.float_dc =~= z.float_dc);
    }
    r
}

/// A channel after a block was put at column `lx` of row `ly`.
pub open spec fn block_put(
    m: ChannelModel,
    width: int,
    lx: int,
    ly: int,
    t: TransformType,
    o: BlockOutput,
    c: int,
) -> ChannelModel {
    let w = t.size().0;
    let h = t.size().1;
    let nz = nonzeros_of(o.coeffs@[c]@, t);
    ChannelModel {
        quant_dc: rect_put(m.quant_dc, width, lx, ly, w, h, o.quant_dc@[c]@),
        quant_ac: rect_put(m.quant_ac, width, lx, ly, w, h, slots_of(o.coeffs@[c]@, t)),
        nzeros: rect_put(
            m.nzeros,
            width,
            lx,
            ly,
            w,
            h,
            Seq::new(t.blocks() as nat, |p: int| per_cell(nz, t) as u8),
        ),
        raw_nzeros: m.raw_nzeros.update(ly * width + lx, nz as u16),
        float_dc: rect_put(m.float_dc, width, lx, ly, w, h, o.float_dc@[c]@),
    }
}

fn put_block(
    r: &mut ChannelResult,
    width: usize,
    height: usize,
    lx: usize,
    ly: usize,
    t: TransformType,
    o: &BlockOutput,
    c: usize,
)
    requires
        c < 3,
        width >= 1,
        t.blocks() <= 64,
        output_ok(*o, t),
        old(r)@.has_len(width * height),
        lx + t.size().0 <= width,
        ly + t.size().1 <= height,
    ensures
        final(r)@ == block_put(old(r)@, width as int, lx as int, ly as int, t, *o, c as int),
        final(r)@.has_len(width * height),
{
    let (w8, h8) = t.dct_select_size();
    let w: usize = w8 as usize;
    let h: usize = h8 as usize;
    let ghost before = r@;
    let ghost goal = block_put(before, width as int, lx as int, ly as int, t, *o, c as int);
    let total: usize = r.nzeros.len();
    proof {
        lemma_sides(t);
        let a = (ly + h) as int;
        let s = width as int;
        assert(a * s <= s * height) by (nonlinear_arith)
            requires
                a <= height,
                s >= 0,
        ;
        assert(o.quant_dc@[c as int]@.len() == w * h);
        assert(o.float_dc@[c as int]@.len() == w * h);
        assert(o.coeffs@[c as int]@.len() == 64 * t.blocks());
        lemma_flat(lx as int, ly as int, width as int, height as int);
    }
    put_rect(&mut r.quant_dc, width, lx, ly, w, h, &o.quant_dc[c]);
    put_rect(&mut r.float_dc, width, lx, ly, w, h, &o.float_dc[c]);
    let slots: Vec<[i32; 64]> = read_slots(&o.coeffs[c], t);
    assert(slots@.len() == w * h) by {
        assert(array_views(slots@).len() == t.blocks());
    }
    let ghost arrays = r.quant_ac@;
    put_rect(&mut r.quant_ac, width, lx, ly, w, h, &slots);
    let nz: u16 = count_coeffs(&o.coeffs[c], t);
    let (blocks, log) = t.block_count();
    let ghost n = nz as int;
    let ghost b = blocks as int;
    assert(0 <= (n + b - 1) / b <= 64) by (nonlinear_arith)
        requires
            0 <= n <= 64 * b,
            b >= 1,
    ;
    let each: u8 = ((nz as u32 + blocks - 1) / blocks) as u8;
    let values: Vec<u8> = vec![each; w * h];
    put_rect(&mut r.nzeros, width, lx, ly, w, h, &values);
    r.raw_nzeros.set(ly * width + lx, nz);
    proof {
        assert(values@ =~= Seq::new(t.blocks() as nat, |p: int| per_cell(n, t) as u8));
        let s = width as int;
        assert forall|p: int| 0 <= p < before.quant_ac.len() implies #[trigger] r@.quant_ac[p]
            == goal.quant_ac[p] by {
            if crate::jxl::block_transform::in_rect(
                p,
                s,
                lx as int,
                ly as int,
                w as int,
                h as int,
            ) {
                let i = p % s - lx;
                let j = p / s - ly;
                lemma_flat(i, j, w as int, h as int);
                assert(array_views(slots@)[j * w + i] == slots@[j * w + i]@);
            }
        }
        assert(r@.quant_ac =~= goal.quant_ac);
        assert(r@.nzeros =~= goal.nzeros);
    }
}

/// Results of a group, with its place in the image.
pub struct GroupTransformResult {
    pub start_bx: usize,
    pub start_by: usize,
    pub width: usize,
    pub height: usize,
    pub channels: Vec<ChannelResult>,
    /// New quantizer factors: the cell and the factor.
    pub quant_adjustments: Vec<(usize, u8)>,
}

impl GroupTransformResult {
    pub open spec fn wf(&self) -> bool {
        &&& self.channels@.len() == 3
        &&& forall|c: int|
            0 <= c < 3 ==> (#[trigger] self.channels@[c])@.has_len(self.width * self.height)
    }

    pub fn new(start_bx: usize, start_by: usize, width: usize, height: usize) -> (r: Self)
        requires
            width * height <= usize::MAX,
        ensures
            r.wf(),
            r.start_bx == start_bx,
            r.start_by == start_by,
            r.width == width,
            r.height == height,
            forall|c: int|
                0 <= c < 3 ==> (#[trigger] r.channels@[c])@ == zero_channel(
                    (width * height) as nat,
                ),
            r.quant_adjustments@.len() == 0,
    {
        assert(width * height >= 0) by (nonlinear_arith);
        let n: usize = width * height;
        let mut channels: Vec<ChannelResult> = Vec::new();
        channels.push(new_channel(n));
        channels.push(new_channel(n));
        channels.push(new_channel(n));
        GroupTransformResult {
            start_bx,
            start_by,
            width,
            height,
            channels,
            quant_adjustments: Vec::new(),
        }
    }
}

/// A channel of a group after its first `n` blocks.
pub open spec fn channel_after(
    cells: Seq<BlockCell>,
    outs: Seq<BlockOutput>,
    region: BlockRegion,
    c: int,
    n: nat,
) -> ChannelModel
    decreases n,
{
    let width = region.end_bx - region.start_bx;
    let height = region.end_by - region.start_by;
    if n == 0 {
        zero_channel((width * height) as nat)
    } else {
        block_put(
            channel_after(cells, outs, region, c, (n - 1) as nat),
            width,
            cells[n - 1].x - region.start_bx,
            cells[n - 1].y - region.start_by,
            cells[n - 1].dct_select,
            outs[n - 1],
            c,
        )
    }
}

/// A factor within 1 to 255.
pub open spec fn clamped(q: i32) -> u8 {
    if q < 1 {
        1
    } else if q > 255 {
        255
    } else {
        q as u8
    }
}

/// The greatest of a factor and those of the three channels.
pub open spec fn greatest(field: u8, factors: Seq<i32>) -> i32 {
    let a = if factors[0] > field as i32 {
        factors[0]
    } else {
        field as i32
    };
    let b = if factors[1] > a {
        factors[1]
    } else {
        a
    };
    if factors[2] > b {
        factors[2]
    } else {
        b
    }
}

/// What is done with a block: the kernel quantizes it, and where factors are adjusted another
/// tells the factor of each channel before.
pub struct Kernels<K, A> {
    pub block: K,
    pub factors: A,
    /// Factors are adjusted.
    pub adjust: bool,
}

/// The factor that a block is quantized by: the given one, or where factors are adjusted the
/// greatest of it and those of the channels.
pub open spec fn is_factor<
    K: Fn(&BlockInput) -> BlockOutput,
    A: Fn(&BlockInput) -> [i32; 3],
>(kernels: Kernels<K, A>, source: Source, cell: BlockCell, quant: i32) -> bool {
    let field = field_at(source, cell);
    if kernels.adjust {
        exists|inp: BlockInput, factors: [i32; 3]|
            {
                &&& #[trigger] call_ensures(kernels.factors, (&inp,), factors)
                &&& is_input(inp, source, cell, field as i32)
                &&& quant == greatest(field, factors@)
            }
    } else {
        quant == field as i32
    }
}

/// The kernel may make this output of a block.
pub open spec fn made_by<K: Fn(&BlockInput) -> BlockOutput, A: Fn(&BlockInput) -> [i32; 3]>(
    kernels: Kernels<K, A>,
    source: Source,
    cell: BlockCell,
    quant: i32,
    o: BlockOutput,
) -> bool {
    &&& is_factor(kernels, source, cell, quant)
    &&& exists|inp: BlockInput| #[trigger]
        is_input(inp, source, cell, quant) && call_ensures(kernels.block, (&inp,), o)
}

/// New factors: where they are adjusted, one for each block, in order.
pub open spec fn adjustments(
    adjust: bool,
    cells: Seq<BlockCell>,
    quants: Seq<i32>,
    xsize: int,
) -> Seq<(usize, u8)> {
    if adjust {
        Seq::new(
            cells.len(),
            |i: int| ((cells[i].y * xsize + cells[i].x) as usize, clamped(quants[i])),
        )
    } else {
        Seq::empty()
    }
}

/// A new factor is no less than the given one, and within 1 to 255.
pub proof fn lemma_adjusted_factor(field: u8, factors: Seq<i32>)
    requires
        factors.len() == 3,
    ensures
        clamped(greatest(field, factors)) >= field,
        1 <= clamped(greatest(field, factors)) <= 255,
{
}

/// The result of a group: every block is handed to the kernel once, and its output is put where
/// the block lies.
pub open spec fn is_group_result<
    K: Fn(&BlockInput) -> BlockOutput,
    A: Fn(&BlockInput) -> [i32; 3],
>(
    r: GroupTransformResult,
    kernels: Kernels<K, A>,
    source: Source,
    blocks: Grid<BlockInfo>,
    forced_dct8: bool,
    region: BlockRegion,
) -> bool {
    let cells = region_cells(blocks, forced_dct8, region);
    &&& r.wf()
    &&& r.start_bx == region.start_bx
    &&& r.start_by == region.start_by
    &&& r.width == region.end_bx - region.start_bx
    &&& r.height == region.end_by - region.start_by
    &&& exists|quants: Seq<i32>, outs: Seq<BlockOutput>| #[trigger]
        is_group_of(r, kernels, source, cells, region, quants, outs)
}

/// The result of a group whose blocks were quantized by these factors to these outputs.
pub open spec fn is_group_of<
    K: Fn(&BlockInput) -> BlockOutput,
    A: Fn(&BlockInput) -> [i32; 3],
>(
    r: GroupTransformResult,
    kernels: Kernels<K, A>,
    source: Source,
    cells: Seq<BlockCell>,
    region: BlockRegion,
    quants: Seq<i32>,
    outs: Seq<BlockOutput>,
) -> bool {
    &&& outs.len() == cells.len()
    &&& quants.len() == cells.len()
    &&& forall|i: int|
        0 <= i < cells.len() ==> made_by(kernels, source, cells[i], quants[i], #[trigger] outs[i])
    &&& forall|c: int|
        0 <= c < 3 ==> (#[trigger] r.channels@[c])@ == channel_after(
            cells,
            outs,
            region,
            c,
            cells.len(),
        )
    &&& r.quant_adjustments@ == adjustments(
        kernels.adjust,
        cells,
        quants,
        source.xsize_blocks as int,
    )
}

/// What the kernels have to take and give.
pub open spec fn kernels_ok<
    K: Fn(&BlockInput) -> BlockOutput,
    A: Fn(&BlockInput) -> [i32; 3],
>(kernels: Kernels<K, A>) -> bool {
    &&& forall|inp: BlockInput| #[trigger] call_requires(kernels.block, (&inp,))
    &&& forall|inp: BlockInput| #[trigger] call_requires(kernels.factors, (&inp,))
    &&& forall|inp: BlockInput, o: BlockOutput|
        #[trigger] call_ensures(kernels.block, (&inp,), o) ==> output_ok(o, inp.dct_select)
}

fn pick_greatest(field: i32, factors: &[i32; 3]) -> (r: i32)
    requires
        0 <= field <= 255,
    ensures
        r == greatest(field as u8, factors@),
{
    let mut r: i32 = field;
    if factors[0] > r {
        r = factors[0];
    }
    if factors[1] > r {
        r = factors[1];
    }
    if factors[2] > r {
        r = factors[2];
    }
    r
}

/// Quantizes a block, and tells the factor that it was quantized by.
fn run_block<K: Fn(&BlockInput) -> BlockOutput, A: Fn(&BlockInput) -> [i32; 3]>(
    kernels: &Kernels<K, A>,
    source: &Source,
    cell: BlockCell,
) -> (r: (i32, BlockOutput))
    requires
        kernels_ok(*kernels),
        source.wf(),
        cell.x + cell.dct_select.size().0 <= source.xsize_blocks,
        cell.y + cell.dct_select.size().1 <= source.ysize_blocks,
    ensures
        made_by(*kernels, *source, cell, r.0, r.1),
        output_ok(r.1, cell.dct_select),
{
    let mut inp: BlockInput = make_input(source, cell);
    if kernels.adjust {
        let ghost first = inp;
        let factors: [i32; 3] = (kernels.factors)(&inp);
        assert(call_ensures(kernels.factors, (&first,), factors));
        inp.quant = pick_greatest(inp.quant, &factors);
        assert(inp.quant == greatest(field_at(*source, cell), factors@));
        assert(is_factor(*kernels, *source, cell, inp.quant));
    }
    let quant: i32 = inp.quant;
    assert(is_input(inp, *source, cell, quant));
    let o: BlockOutput = (kernels.block)(&inp);
    assert(call_ensures(kernels.block, (&inp,), o));
    (quant, o)
}

fn clamp_factor(q: i32) -> (r: u8)
    ensures
        r == clamped(q),
{
    if q < 1 {
        1
    } else if q > 255 {
        255
    } else {
        q as u8
    }
}

/// No block has more than 64 cells.
pub open spec fn small_blocks(
    blocks: Grid<BlockInfo>,
    forced_dct8: bool,
    region: BlockRegion,
) -> bool {
    let cells = region_cells(blocks, forced_dct8, region);
    forall|i: int| 0 <= i < cells.len() ==> (#[trigger] cells[i]).dct_select.blocks() <= 64
}

/// Transforms the blocks of a region.
pub fn transform_blocks_into<K: Fn(&BlockInput) -> BlockOutput, A: Fn(&BlockInput) -> [i32; 3]>(
    kernels: &Kernels<K, A>,
    source: &Source,
    blocks: &Grid<BlockInfo>,
    forced_dct8: bool,
    region: &BlockRegion,
) -> (r: GroupTransformResult)
    requires
        kernels_ok(*kernels),
        source.wf(),
        blocks.wf(),
        blocks.width == source.xsize_blocks,
        blocks.height == source.ysize_blocks,
        region.start_bx < region.end_bx <= blocks.width,
        region.start_by < region.end_by <= blocks.height,
        region.end_bx - region.start_bx <= 32,
        region.end_by - region.start_by <= 32,
        blocks_inside(*blocks, forced_dct8, *region),
        small_blocks(*blocks, forced_dct8, *region),
    ensures
        is_group_result(r, *kernels, *source, *blocks, forced_dct8, *region),
{
    let width: usize = region.end_bx - region.start_bx;
    let height: usize = region.end_by - region.start_by;
    assert(width * height <= 1024) by (nonlinear_arith)
        requires
            width <= 32,
            height <= 32,
    ;
    let cells: Vec<BlockCell> = list_cells(blocks, forced_dct8, region);
    let mut r = GroupTransformResult::new(region.start_bx, region.start_by, width, height);
    let ghost mut outs: Seq<BlockOutput> = Seq::empty();
    let ghost mut quants: Seq<i32> = Seq::empty();
    let ghost xsize = source.xsize_blocks as int;
    let mut i: usize = 0;
    assert(r.quant_adjustments@ =~= adjustments(
        kernels.adjust,
        cells@.take(0),
        quants,
        xsize,
    ));
    while i < cells.len()
        invariant
            i <= cells@.len(),
            kernels_ok(*kernels),
            source.wf(),
            xsize == source.xsize_blocks,
            blocks.wf(),
            blocks.width == source.xsize_blocks,
            blocks.height == source.ysize_blocks,
            region.start_bx < region.end_bx <= blocks.width,
            region.start_by < region.end_by <= blocks.height,
            cells@ == region_cells(*blocks, forced_dct8, *region),
            small_blocks(*blocks, forced_dct8, *region),
            forall|k: int| 0 <= k < cells@.len() ==> cell_inside(*region, #[trigger] cells@[k]),
            r.wf(),
            r.start_bx == region.start_bx,
            r.start_by == region.start_by,
            r.width == region.end_bx - region.start_bx,
            r.height == region.end_by - region.start_by,
            r.width == width,
            r.height == height,
            width >= 1,
            outs.len() == i,
            quants.len() == i,
            forall|k: int|
                0 <= k < i ==> made_by(
                    *kernels,
                    *source,
                    cells@[k],
                    quants[k],
                    #[trigger] outs[k],
                ),
            forall|c: int|
                0 <= c < 3 ==> (#[trigger] r.channels@[c])@ == channel_after(
                    cells@,
                    outs,
                    *region,
                    c,
                    i as nat,
                ),
            r.quant_adjustments@ == adjustments(
                kernels.adjust,
                cells@.take(i as int),
                quants,
                xsize,
            ),
        decreases cells@.len() - i,
    {
        let cell: BlockCell = cells[i];
        assert(cell_inside(*region, cells@[i as int]));
        assert(cells@[i as int].dct_select.blocks() <= 64);
        let (quant, o) = run_block(kernels, source, cell);
        let lx: usize = cell.x - region.start_bx;
        let ly: usize = cell.y - region.start_by;
        let ghost before = r.channels@;
        let ghost given = r.quant_adjustments@;
        let ghost outs2 = outs.push(o);
        let ghost quants2 = quants.push(quant);
        assert(before[0]@.has_len(width * height) && before[1]@.has_len(width * height)
            && before[2]@.has_len(width * height));
        put_block(&mut r.channels[0], width, height, lx, ly, cell.dct_select, &o, 0);
        put_block(&mut r.channels[1], width, height, lx, ly, cell.dct_select, &o, 1);
        put_block(&mut r.channels[2], width, height, lx, ly, cell.dct_select, &o, 2);
        if kernels.adjust {
            proof {
                lemma_flat(
                    cell.x as int,
                    cell.y as int,
                    source.xsize_blocks as int,
                    source.ysize_blocks as int,
                );
            }
            let total: usize = source.quant_field.len();
            let at: usize = cell.y * source.xsize_blocks + cell.x;
            r.quant_adjustments.push((at, clamp_factor(quant)));
        }
        proof {
            assert(r.quant_adjustments@ =~= adjustments(
                kernels.adjust,
                cells@.take(i + 1),
                quants2,
                xsize,
            ));
            assert forall|c: int| 0 <= c < 3 implies (#[trigger] r.channels@[c])@ == channel_after(
                cells@,
                outs2,
                *region,
                c,
                (i + 1) as nat,
            ) by {
                lemma_same_prefix(cells@, outs, outs2, *region, c, i as nat);
                assert(before[c]@ == channel_after(cells@, outs, *region, c, i as nat));
            }
            assert forall|k: int| 0 <= k < i + 1 implies made_by(
                *kernels,
                *source,
                cells@[k],
                quants2[k],
                #[trigger] outs2[k],
            ) by {
                if k < i {
                    assert(outs2[k] == outs[k]);
                    assert(quants2[k] == quants[k]);
                }
            }
            outs = outs2;
            quants = quants2;
        }
        i = i + 1;
    }
    proof {
        assert(cells@.take(i as int) =~= cells@);
        assert(is_group_of(r, *kernels, *source, cells@, *region, quants, outs));
    }
    r
}

proof fn lemma_same_prefix(
    cells: Seq<BlockCell>,
    outs: Seq<BlockOutput>,
    outs2: Seq<BlockOutput>,
    region: BlockRegion,
    c: int,
    n: nat,
)
    requires
        n <= outs.len() <= outs2.len(),
        forall|k: int| 0 <= k < outs.len() ==> outs[k] == outs2[k],
    ensures
        channel_after(cells, outs, region, c, n) == channel_after(cells, outs2, region, c, n),
    decreases n,
{
    if n > 0 {
        lemma_same_prefix(cells, outs, outs2, region, c, (n - 1) as nat);
    }
}

} // verus!
