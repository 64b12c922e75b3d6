//! Transform and quantization of a whole image: groups on their own, then put together.
use crate::jxl::block::BlockInfo;
use crate::jxl::block_transform::{in_rect, put_rect, rect_fits, rect_put};
use crate::jxl::grid::{lemma_flat, lemma_flat_injective, Grid};
use crate::jxl::group_result::{
    adjustments, is_group_of, is_group_result, kernels_ok, new_channel, small_blocks,
    transform_blocks_into, zero_channel, ChannelModel, ChannelResult, GroupTransformResult,
    Kernels,
};
use crate::jxl::group_transform::{
    array_views, block_at, blocks_inside, cells_from, region_cells, BlockCell, BlockInput,
    BlockOutput, Source,
};
use crate::jxl::jpeg_encode::{lemma_region, region_at};
use crate::jxl::jpeg_recode::{ceil_div, region_of, BlockRegion, GROUP_DIM_IN_BLOCKS};
use crate::parallel::parallel_map;
use crate::math::least;
use vstd::prelude::*;

verus! {

/// Results of an image, one value of each kind per cell of each channel.
pub struct TransformOutput {
    pub channels: Vec<ChannelResult>,
}

impl TransformOutput {
    pub open spec fn has_len(&self, n: int) -> bool {
        &&& self.channels@.len() == 3
        &&& forall|c: int| 0 <= c < 3 ==> (#[trigger] self.channels@[c])@.has_len(n)
    }

    pub fn new(xsize_blocks: usize, ysize_blocks: usize) -> (r: Self)
        requires
            xsize_blocks * ysize_blocks <= usize::MAX,
        ensures
            r.has_len(xsize_blocks * ysize_blocks),
            forall|c: int|
                0 <= c < 3 ==> (#[trigger] r.channels@[c])@ == zero_channel(
                    (xsize_blocks * ysize_blocks) as nat,
                ),
    {
        assert(xsize_blocks * ysize_blocks >= 0) by (nonlinear_arith);
        let n: usize = xsize_blocks * ysize_blocks;
        let mut channels: Vec<ChannelResult> = Vec::new();
        channels.push(new_channel(n));
        channels.push(new_channel(n));
        channels.push(new_channel(n));
        TransformOutput { channels }
    }
}

/// A channel after the values of a group were put in their place.
pub open spec fn group_put(
    m: ChannelModel,
    xsize: int,
    x: int,
    y: int,
    w: int,
    h: int,
    g: ChannelModel,
) -> ChannelModel {
    ChannelModel {
        quant_dc: rect_put(m.quant_dc, xsize, x, y, w, h, g.quant_dc),
        quant_ac: rect_put(m.quant_ac, xsize, x, y, w, h, g.quant_ac),
        nzeros: rect_put(m.nzeros, xsize, x, y, w, h, g.nzeros),
        raw_nzeros: rect_put(m.raw_nzeros, xsize, x, y, w, h, g.raw_nzeros),
        float_dc: rect_put(m.float_dc, xsize, x, y, w, h, g.float_dc),
    }
}

fn put_group(
    out: &mut ChannelResult,
    xsize: usize,
    x: usize,
    y: usize,
    w: usize,
    h: usize,
    g: &ChannelResult,
)
    requires
        xsize >= 1,
        old(out)@.has_len(old(out)@.nzeros.len() as int),
        rect_fits(
            old(out)@.nzeros.len() as int,
            xsize as int,
            x as int,
            y as int,
            w as int,
            h as int,
        ),
        g@.has_len(w * h),
    ensures
        final(out)@ == group_put(
            old(out)@,
            xsize as int,
            x as int,
            y as int,
            w as int,
            h as int,
            g@,
        ),
        final(out)@.has_len(old(out)@.nzeros.len() as int),
{
    let ghost before = out@;
    put_rect(&mut out.quant_dc, xsize, x, y, w, h, &g.quant_dc);
    put_rect(&mut out.quant_ac, xsize, x, y, w, h, &g.quant_ac);
    put_rect(&mut out.nzeros, xsize, x, y, w, h, &g.nzeros);
    put_rect(&mut out.raw_nzeros, xsize, x, y, w, h, &g.raw_nzeros);
    put_rect(&mut out.float_dc, xsize, x, y, w, h, &g.float_dc);
    proof {
        let goal = group_put(
            before,
            xsize as int,
            x as int,
            y as int,
            w as int,
            h as int,
            g@,
        );
        assert forall|p: int| 0 <= p < before.quant_ac.len() implies #[trigger] out@.quant_ac[p]
            == goal.quant_ac[p] by {
            let s = xsize as int;
            if in_rect(p, s, x as int, y as int, w as int, h as int) {
                let i = p % s - x;
                let j = p / s - y;
                lemma_flat(i, j, w as int, h as int);
                assert(array_views(g.quant_ac@)[j * w + i] == g.quant_ac@[j * w + i]@);
            }
        }
        assert(out@.quant_ac =~= goal.quant_ac);
    }
}

impl GroupTransformResult {
    /// Puts the values of the group into the image.
    pub fn scatter_into(&self, out: &mut TransformOutput, xsize_blocks: usize)
        requires
            self.wf(),
            xsize_blocks >= 1,
            old(out).has_len(old(out).channels@[0]@.nzeros.len() as int),
            rect_fits(
                old(out).channels@[0]@.nzeros.len() as int,
                xsize_blocks as int,
                self.start_bx as int,
                self.start_by as int,
                self.width as int,
                self.height as int,
            ),
        ensures
            final(out).has_len(old(out).channels@[0]@.nzeros.len() as int),
            forall|c: int|
                0 <= c < 3 ==> (#[trigger] final(out).channels@[c])@ == group_put(
                    old(out).channels@[c]@,
                    xsize_blocks as int,
                    self.start_bx as int,
                    self.start_by as int,
                    self.width as int,
                    self.height as int,
                    self.channels@[c]@,
                ),
    {
        let ghost n = out.channels@[0]@.nzeros.len() as int;
        assert(out.channels@[0]@.has_len(n) && out.channels@[1]@.has_len(n)
            && out.channels@[2]@.has_len(n));
        assert(self.channels@[0]@.has_len(self.width * self.height)
            && self.channels@[1]@.has_len(self.width * self.height)
            && self.channels@[2]@.has_len(self.width * self.height));
        let (x, y, w, h) = (self.start_bx, self.start_by, self.width, self.height);
        put_group(&mut out.channels[0], xsize_blocks, x, y, w, h, &self.channels[0]);
        put_group(&mut out.channels[1], xsize_blocks, x, y, w, h, &self.channels[1]);
        put_group(&mut out.channels[2], xsize_blocks, x, y, w, h, &self.channels[2]);
    }
}

/// A channel of an image after its first `n` groups were put in place.
pub open spec fn channel_with(
    start: ChannelModel,
    results: Seq<GroupTransformResult>,
    xsize: int,
    c: int,
    n: nat,
) -> ChannelModel
    decreases n,
{
    if n == 0 {
        start
    } else {
        let r = results[n - 1];
        group_put(
            channel_with(start, results, xsize, c, (n - 1) as nat),
            xsize,
            r.start_bx as int,
            r.start_by as int,
            r.width as int,
            r.height as int,
            r.channels@[c]@,
        )
    }
}

/// Factors after the adjustments of a group.
pub open spec fn adjusted(field: Seq<u8>, adjustments: Seq<(usize, u8)>) -> Seq<u8>
    decreases adjustments.len(),
{
    if adjustments.len() == 0 {
        field
    } else {
        let last = adjustments.last();
        adjusted(field, adjustments.drop_last()).update(last.0 as int, last.1)
    }
}

/// Factors after the adjustments of the first `n` groups.
pub open spec fn field_with(field: Seq<u8>, results: Seq<GroupTransformResult>, n: nat) -> Seq<u8>
    decreases n,
{
    if n == 0 {
        field
    } else {
        adjusted(
            field_with(field, results, (n - 1) as nat),
            results[n - 1].quant_adjustments@,
        )
    }
}

fn adjust_field(field: &mut Vec<u8>, adjustments: &Vec<(usize, u8)>)
    requires
        forall|i: int|
            0 <= i < adjustments@.len() ==> (#[trigger] adjustments@[i]).0 < old(field)@.len(),
    ensures
        final(field)@ == adjusted(old(field)@, adjustments@),
        final(field)@.len() == old(field)@.len(),
{
    let ghost start = field@;
    let mut i: usize = 0;
    assert(adjustments@.take(0) =~= Seq::<(usize, u8)>::empty());
    while i < adjustments.len()
        invariant
            i <= adjustments@.len(),
            field@.len() == start.len(),
            forall|k: int|
                0 <= k < adjustments@.len() ==> (#[trigger] adjustments@[k]).0 < start.len(),
            field@ == adjusted(start, adjustments@.take(i as int)),
        decreases adjustments@.len() - i,
    {
        let (at, value) = adjustments[i];
        assert(adjustments@[i as int].0 < start.len());
        field.set(at, value);
        assert(adjustments@.take(i + 1).drop_last() =~= adjustments@.take(i as int));
        i = i + 1;
    }
    assert(adjustments@.take(i as int) =~= adjustments@);
}

/// Groups in a row of an image.
pub open spec fn groups_for(blocks: int) -> int {
    ceil_div(blocks, GROUP_DIM_IN_BLOCKS as int)
}

/// Region of group `g` of an image.
pub open spec fn group_region(source: Source, g: int) -> BlockRegion {
    region_of(
        g,
        groups_for(source.xsize_blocks as int),
        GROUP_DIM_IN_BLOCKS as int,
        source.xsize_blocks as int,
        source.ysize_blocks as int,
    )
}

pub open spec fn group_total(source: Source) -> int {
    groups_for(source.xsize_blocks as int) * groups_for(source.ysize_blocks as int)
}

/// Every block lies within one group and has at most 64 cells.
pub open spec fn groups_ok(source: Source, blocks: Grid<BlockInfo>, forced_dct8: bool) -> bool {
    forall|g: int|
        0 <= g < group_total(source) ==> blocks_inside(
            blocks,
            forced_dct8,
            #[trigger] group_region(source, g),
        ) && small_blocks(blocks, forced_dct8, group_region(source, g))
}

/// The groups of an image as the kernel makes them.
pub open spec fn are_groups<K: Fn(&BlockInput) -> BlockOutput, A: Fn(&BlockInput) -> [i32; 3]>(
    results: Seq<GroupTransformResult>,
    kernels: Kernels<K, A>,
    source: Source,
    blocks: Grid<BlockInfo>,
    forced_dct8: bool,
) -> bool {
    &&& results.len() == group_total(source)
    &&& forall|g: int|
        0 <= g < results.len() ==> is_group_result(
            #[trigger] results[g],
            kernels,
            source,
            blocks,
            forced_dct8,
            group_region(source, g),
        )
}

proof fn lemma_groups(xsize: int, ysize: int)
    requires
        xsize >= 1,
        ysize >= 1,
    ensures
        1 <= groups_for(xsize) <= xsize,
        1 <= groups_for(ysize) <= ysize,
        1 <= groups_for(xsize) * groups_for(ysize) <= xsize * ysize,
        (groups_for(xsize) - 1) * 32 < xsize <= groups_for(xsize) * 32,
        (groups_for(ysize) - 1) * 32 < ysize <= groups_for(ysize) * 32,
{
    let a = groups_for(xsize);
    let b = groups_for(ysize);
    assert(1 <= a * b <= xsize * ysize) by (nonlinear_arith)
        requires
            1 <= a <= xsize,
            1 <= b <= ysize,
    ;
}

/// What is in memory can be counted.
fn count_cells(source: &Source)
    requires
        source.wf(),
    ensures
        8 * source.xsize_blocks <= usize::MAX,
        8 * source.ysize_blocks <= usize::MAX,
        source.xsize_blocks * source.ysize_blocks <= usize::MAX,
{
    let cells: usize = source.quant_field.len();
    let pixels: usize = source.planes[0].len();
    proof {
        let b = 8 * source.ysize_blocks;
        let s = source.stride as int;
        assert(source.planes@[0]@.len() >= b * s);
        assert(b <= b * s) by (nonlinear_arith)
            requires
                b >= 0,
                s >= 1,
        ;
    }
}

/// Transforms one group of an image.
fn transform_group<K: Fn(&BlockInput) -> BlockOutput, A: Fn(&BlockInput) -> [i32; 3]>(
    kernels: &Kernels<K, A>,
    source: &Source,
    blocks: &Grid<BlockInfo>,
    forced_dct8: bool,
    g: usize,
    xg: usize,
    yg: usize,
) -> (r: GroupTransformResult)
    requires
        kernels_ok(*kernels),
        source.wf(),
        source.xsize_blocks >= 1,
        source.ysize_blocks >= 1,
        blocks.wf(),
        blocks.width == source.xsize_blocks,
        blocks.height == source.ysize_blocks,
        groups_ok(*source, *blocks, forced_dct8),
        xg == groups_for(source.xsize_blocks as int),
        yg == groups_for(source.ysize_blocks as int),
        g < xg * yg,
    ensures
        is_group_result(
            r,
            *kernels,
            *source,
            *blocks,
            forced_dct8,
            group_region(*source, g as int),
        ),
{
    count_cells(source);
    proof {
        lemma_groups(source.xsize_blocks as int, source.ysize_blocks as int);
    }
    let region: BlockRegion = region_at(
        g,
        xg,
        yg,
        GROUP_DIM_IN_BLOCKS,
        source.xsize_blocks,
        source.ysize_blocks,
    );
    assert(region == group_region(*source, g as int));
    proof {
        lemma_region_inside(*source, g as int);
    }
    transform_blocks_into(kernels, source, blocks, forced_dct8, &region)
}

/// Transforms the groups of an image on their own.
fn transform_groups<
    K: Fn(&BlockInput) -> BlockOutput + Send + Sync,
    A: Fn(&BlockInput) -> [i32; 3] + Send + Sync,
>(
    kernels: &Kernels<K, A>,
    source: &Source,
    blocks: &Grid<BlockInfo>,
    forced_dct8: bool,
    sequential: bool,
) -> (results: Vec<GroupTransformResult>)
    requires
        kernels_ok(*kernels),
        source.wf(),
        source.xsize_blocks >= 1,
        source.ysize_blocks >= 1,
        blocks.wf(),
        blocks.width == source.xsize_blocks,
        blocks.height == source.ysize_blocks,
        groups_ok(*source, *blocks, forced_dct8),
    ensures
        are_groups(results@, *kernels, *source, *blocks, forced_dct8),
{
    count_cells(source);
    let xg: usize = (source.xsize_blocks + 31) / 32;
    let yg: usize = (source.ysize_blocks + 31) / 32;
    proof {
        lemma_groups(source.xsize_blocks as int, source.ysize_blocks as int);
    }
    let count: usize = xg * yg;
    let work = |g: usize| -> (r: GroupTransformResult)
        requires
            g < count,
        ensures
            is_group_result(
                r,
                *kernels,
                *source,
                *blocks,
                forced_dct8,
                group_region(*source, g as int),
            ),
        { transform_group(kernels, source, blocks, forced_dct8, g, xg, yg) };
    let results: Vec<GroupTransformResult> = parallel_map(count, sequential, work);
    assert forall|g: int| 0 <= g < results@.len() implies is_group_result(
        #[trigger] results@[g],
        *kernels,
        *source,
        *blocks,
        forced_dct8,
        group_region(*source, g),
    ) by {
        let i = g as usize;
        assert(call_ensures(work, (i,), results@[i as int]));
    }
    results
}

/// Adjusted cells are cells of the image.
proof fn lemma_adjustments_inside(
    adjust: bool,
    cells: Seq<BlockCell>,
    quants: Seq<i32>,
    xsize: int,
    ysize: int,
)
    requires
        xsize * ysize <= usize::MAX,
        forall|i: int|
            0 <= i < cells.len() ==> (#[trigger] cells[i]).x < xsize && cells[i].y < ysize,
    ensures
        ({
            let adj = adjustments(adjust, cells, quants, xsize);
            forall|i: int| 0 <= i < adj.len() ==> (#[trigger] adj[i]).0 < xsize * ysize
        }),
{
    let adj = adjustments(adjust, cells, quants, xsize);
    assert forall|i: int| 0 <= i < adj.len() implies (#[trigger] adj[i]).0 < xsize * ysize by {
        lemma_flat(cells[i].x as int, cells[i].y as int, xsize, ysize);
    }
}

proof fn lemma_cells_inside(
    blocks: Grid<BlockInfo>,
    forced_dct8: bool,
    region: BlockRegion,
    x: int,
    y: int,
)
    requires
        0 <= x,
        0 <= y,
    ensures
        ({
            let cells = cells_from(blocks, forced_dct8, region, x, y);
            forall|i: int|
                0 <= i < cells.len() ==> (#[trigger] cells[i]).x < region.end_bx && cells[i].y
                    < region.end_by
        }),
    decreases region.end_by - y, region.end_bx - x,
{
    if y < region.end_by {
        if x >= region.end_bx {
            lemma_cells_inside(blocks, forced_dct8, region, region.start_bx as int, y + 1);
        } else {
            lemma_cells_inside(blocks, forced_dct8, region, x + 1, y);
            let rest = cells_from(blocks, forced_dct8, region, x + 1, y);
            let cells = cells_from(blocks, forced_dct8, region, x, y);
            assert forall|i: int| 0 <= i < cells.len() implies (#[trigger] cells[i]).x
                < region.end_bx && cells[i].y < region.end_by by {
                if block_at(blocks, forced_dct8, x, y) is Some && i > 0 {
                    assert(cells[i] == rest[i - 1]);
                }
            }
        }
    }
}

/// Transforms an image into results that are there already. Kernels see the factors as they were.
pub fn transform_and_quantize_into<
    K: Fn(&BlockInput) -> BlockOutput + Send + Sync,
    A: Fn(&BlockInput) -> [i32; 3] + Send + Sync,
>(
    kernels: &Kernels<K, A>,
    source: &mut Source,
    blocks: &Grid<BlockInfo>,
    forced_dct8: bool,
    sequential: bool,
    out: &mut TransformOutput,
)
    requires
        kernels_ok(*kernels),
        old(source).wf(),
        old(source).xsize_blocks >= 1,
        old(source).ysize_blocks >= 1,
        blocks.wf(),
        blocks.width == old(source).xsize_blocks,
        blocks.height == old(source).ysize_blocks,
        groups_ok(*old(source), *blocks, forced_dct8),
        old(out).has_len(old(source).xsize_blocks * old(source).ysize_blocks),
    ensures
        final(out).has_len(old(source).xsize_blocks * old(source).ysize_blocks),
        final(source).planes == old(source).planes,
        final(source).stride == old(source).stride,
        final(source).xsize_blocks == old(source).xsize_blocks,
        final(source).ysize_blocks == old(source).ysize_blocks,
        exists|results: Seq<GroupTransformResult>|
            {
                &&& #[trigger] are_groups(results, *kernels, *old(source), *blocks, forced_dct8)
                &&& forall|c: int|
                    0 <= c < 3 ==> (#[trigger] final(out).channels@[c])@ == channel_with(
                        old(out).channels@[c]@,
                        results,
                        old(source).xsize_blocks as int,
                        c,
                        results.len(),
                    )
                &&& final(source).quant_field@ == field_with(
                    old(source).quant_field@,
                    results,
                    results.len(),
                )
            },
{
    let xsize: usize = source.xsize_blocks;
    let ysize: usize = source.ysize_blocks;
    let ghost s0 = *source;
    let ghost out0 = out.channels@;
    let ghost n = xsize * ysize;
    let results: Vec<GroupTransformResult> = transform_groups(
        kernels,
        source,
        blocks,
        forced_dct8,
        sequential,
    );
    proof {
        lemma_groups(xsize as int, ysize as int);
    }
    let mut g: usize = 0;
    while g < results.len()
        invariant
            g <= results@.len(),
            s0.wf(),
            xsize == s0.xsize_blocks,
            ysize == s0.ysize_blocks,
            xsize >= 1,
            ysize >= 1,
            n == xsize * ysize,
            source.planes == s0.planes,
            source.stride == s0.stride,
            source.xsize_blocks == xsize,
            source.ysize_blocks == ysize,
            source.quant_field@.len() == n,
            s0.quant_field@.len() == n,
            are_groups(results@, *kernels, s0, *blocks, forced_dct8),
            out.has_len(n as int),
            forall|c: int|
                0 <= c < 3 ==> (#[trigger] out.channels@[c])@ == channel_with(
                    out0[c]@,
                    results@,
                    xsize as int,
                    c,
                    g as nat,
                ),
            source.quant_field@ == field_with(s0.quant_field@, results@, g as nat),
        decreases results@.len() - g,
    {
        let ghost region = group_region(s0, g as int);
        let r = &results[g];
        let total: usize = source.quant_field.len();
        proof {
            assert(is_group_result(results@[g as int], *kernels, s0, *blocks, forced_dct8, region));
            lemma_region_inside(s0, g as int);
            let cells = region_cells(*blocks, forced_dct8, region);
            lemma_cells_inside(
                *blocks,
                forced_dct8,
                region,
                region.start_bx as int,
                region.start_by as int,
            );
            let (quants, outs) = choose|quants: Seq<i32>, outs: Seq<BlockOutput>| #[trigger]
                is_group_of(*r, *kernels, s0, cells, region, quants, outs);
            lemma_adjustments_inside(kernels.adjust, cells, quants, xsize as int, ysize as int);
            assert(out.channels@[0]@.has_len(n as int));
        }
        adjust_field(&mut source.quant_field, &r.quant_adjustments);
        r.scatter_into(out, xsize);
        g = g + 1;
    }
    proof {
        assert(are_groups(results@, *kernels, s0, *blocks, forced_dct8));
    }
}

/// A group's region lies within the image.
proof fn lemma_region_inside(source: Source, g: int)
    requires
        source.xsize_blocks >= 1,
        source.ysize_blocks >= 1,
        0 <= g < group_total(source),
    ensures
        ({
            let r = group_region(source, g);
            &&& r.start_bx < r.end_bx <= source.xsize_blocks
            &&& r.start_by < r.end_by <= source.ysize_blocks
            &&& r.end_bx - r.start_bx <= 32
            &&& r.end_by - r.start_by <= 32
            &&& rect_fits(
                source.xsize_blocks * source.ysize_blocks,
                source.xsize_blocks as int,
                r.start_bx as int,
                r.start_by as int,
                r.end_bx - r.start_bx,
                r.end_by - r.start_by,
            )
            &&& r.start_bx == g % groups_for(source.xsize_blocks as int) * 32
            &&& r.start_by == g / groups_for(source.xsize_blocks as int) * 32
        }),
{
    let xs = source.xsize_blocks as int;
    let ys = source.ysize_blocks as int;
    lemma_groups(xs, ys);
    lemma_region(g, groups_for(xs), groups_for(ys), 32, xs, ys);
    let r = group_region(source, g);
    let e = r.end_by as int;
    assert(e * xs <= xs * ys) by (nonlinear_arith)
        requires
            e <= ys,
            xs >= 0,
    ;
}

/// Transforms an image.
pub fn transform_and_quantize<
    K: Fn(&BlockInput) -> BlockOutput + Send + Sync,
    A: Fn(&BlockInput) -> [i32; 3] + Send + Sync,
>(
    kernels: &Kernels<K, A>,
    source: &mut Source,
    blocks: &Grid<BlockInfo>,
    forced_dct8: bool,
    sequential: bool,
) -> (out: TransformOutput)
    requires
        kernels_ok(*kernels),
        old(source).wf(),
        old(source).xsize_blocks >= 1,
        old(source).ysize_blocks >= 1,
        blocks.wf(),
        blocks.width == old(source).xsize_blocks,
        blocks.height == old(source).ysize_blocks,
        groups_ok(*old(source), *blocks, forced_dct8),
    ensures
        out.has_len(old(source).xsize_blocks * old(source).ysize_blocks),
        final(source).planes == old(source).planes,
        final(source).stride == old(source).stride,
        final(source).xsize_blocks == old(source).xsize_blocks,
        final(source).ysize_blocks == old(source).ysize_blocks,
        exists|results: Seq<GroupTransformResult>|
            {
                &&& #[trigger] are_groups(results, *kernels, *old(source), *blocks, forced_dct8)
                &&& forall|c: int|
                    0 <= c < 3 ==> (#[trigger] out.channels@[c])@ == channel_with(
                        zero_channel(
                            (old(source).xsize_blocks * old(source).ysize_blocks) as nat,
                        ),
                        results,
                        old(source).xsize_blocks as int,
                        c,
                        results.len(),
                    )
                &&& final(source).quant_field@ == field_with(
                    old(source).quant_field@,
                    results,
                    results.len(),
                )
            },
{
    let total: usize = source.quant_field.len();
    let mut out = TransformOutput::new(source.xsize_blocks, source.ysize_blocks);
    transform_and_quantize_into(kernels, source, blocks, forced_dct8, sequential, &mut out);
    out
}

// ---- where values end up ----
/// Number of the group that covers a cell.
pub open spec fn home_of(xsize: int, x: int, y: int) -> int {
    y / 32 * groups_for(xsize) + x / 32
}

/// A cell lies in the region of a group exactly if the group is its own.
pub proof fn lemma_home(source: Source, g: int, x: int, y: int)
    requires
        source.xsize_blocks >= 1,
        source.ysize_blocks >= 1,
        0 <= g < group_total(source),
        0 <= x < source.xsize_blocks,
        0 <= y < source.ysize_blocks,
    ensures
        0 <= home_of(source.xsize_blocks as int, x, y) < group_total(source),
        ({
            let r = group_region(source, g);
            (r.start_bx <= x < r.end_bx && r.start_by <= y < r.end_by) == (g == home_of(
                source.xsize_blocks as int,
                x,
                y,
            ))
        }),
{
    let xs = source.xsize_blocks as int;
    let ys = source.ysize_blocks as int;
    let per_row = groups_for(xs);
    lemma_groups(xs, ys);
    lemma_region_inside(source, g);
    lemma_flat(x / 32, y / 32, per_row, groups_for(ys));
    vstd::arithmetic::div_mod::lemma_fundamental_div_mod(g, per_row);
    vstd::arithmetic::div_mod::lemma_mod_bound(g, per_row);
    let qx = g % per_row;
    let qy = g / per_row;
    assert(per_row * qy == qy * per_row) by (nonlinear_arith);
    assert(0 <= qy < groups_for(ys)) by (nonlinear_arith)
        requires
            g == per_row * qy + qx,
            0 <= qx < per_row,
            0 <= g < per_row * groups_for(ys),
    ;
    let r = group_region(source, g);
    assert(r.start_bx == qx * 32 && r.start_by == qy * 32);
    assert(r.end_bx == least(qx * 32 + 32, xs) && r.end_by == least(qy * 32 + 32, ys));
    let inside = r.start_bx <= x < r.end_bx && r.start_by <= y < r.end_by;
    assert(inside == (x / 32 == qx && y / 32 == qy));
    if g == home_of(xs, x, y) {
        lemma_flat_injective(qx, qy, x / 32, y / 32, per_row);
        assert(inside);
    }
    if inside {
        assert(g == home_of(xs, x, y));
    }
}

/// Groups are put in place without touching each other: each cell of the image holds what its
/// own group holds there.
pub proof fn lemma_cell_value<K: Fn(&BlockInput) -> BlockOutput, A: Fn(&BlockInput) -> [i32; 3]>(
    start: ChannelModel,
    results: Seq<GroupTransformResult>,
    kernels: Kernels<K, A>,
    source: Source,
    blocks: Grid<BlockInfo>,
    forced_dct8: bool,
    c: int,
    x: int,
    y: int,
    n: nat,
)
    requires
        are_groups(results, kernels, source, blocks, forced_dct8),
        source.xsize_blocks >= 1,
        source.ysize_blocks >= 1,
        start.has_len(source.xsize_blocks * source.ysize_blocks),
        0 <= c < 3,
        0 <= x < source.xsize_blocks,
        0 <= y < source.ysize_blocks,
        n <= results.len(),
    ensures
        ({
            let xs = source.xsize_blocks as int;
            let p = y * xs + x;
            let after = channel_with(start, results, xs, c, n);
            let home = home_of(xs, x, y);
            let r = results[home];
            let q = (y - r.start_by) * r.width + (x - r.start_bx);
            &&& after.has_len(source.xsize_blocks * source.ysize_blocks)
            &&& after.quant_dc[p] == (if home < n {
                r.channels@[c]@.quant_dc[q]
            } else {
                start.quant_dc[p]
            })
            &&& after.quant_ac[p] == (if home < n {
                r.channels@[c]@.quant_ac[q]
            } else {
                start.quant_ac[p]
            })
            &&& after.nzeros[p] == (if home < n {
                r.channels@[c]@.nzeros[q]
            } else {
                start.nzeros[p]
            })
            &&& after.raw_nzeros[p] == (if home < n {
                r.channels@[c]@.raw_nzeros[q]
            } else {
                start.raw_nzeros[p]
            })
            &&& after.float_dc[p] == (if home < n {
                r.channels@[c]@.float_dc[q]
            } else {
                start.float_dc[p]
            })
        }),
    decreases n,
{
    let xs = source.xsize_blocks as int;
    let p = y * xs + x;
    lemma_flat(x, y, xs, source.ysize_blocks as int);
    crate::vp8::planes::lemma_row_col(y, x, xs);
    if n > 0 {
        let g = n - 1;
        lemma_cell_value(
            start,
            results,
            kernels,
            source,
            blocks,
            forced_dct8,
            c,
            x,
            y,
            (n - 1) as nat,
        );
        lemma_home(source, g, x, y);
        lemma_region_inside(source, g);
        assert(is_group_result(
            results[g],
            kernels,
            source,
            blocks,
            forced_dct8,
            group_region(source, g),
        ));
    }
}

} // verus!
