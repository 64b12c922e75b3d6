//! Every block of a recoded file is coded once.
use crate::jxl::jpeg_data::BlockRow;
use crate::jxl::jpeg_encode::ac_region;
use crate::jxl::jpeg_recode::{
    block_entry, blocks_from, channels_cover, coded_channel, group_blocks, halved, off_grid,
    AcBlock, BlockRegion, RecodeSize, Shift,
};
use vstd::prelude::*;

verus! {

/// Column or row of the image where the block `n` of a channel starts.
pub open spec fn full(n: int, shift: usize) -> int {
    if shift > 0 {
        2 * n
    } else {
        n
    }
}

/// Step in which a channel is coded.
pub open spec fn coded_step(c: int) -> int {
    if c == 1 {
        0
    } else if c == 0 {
        1
    } else {
        2
    }
}

/// The block comes from column `bx` of row `by` and step `k` or from behind, within the region.
spec fn listed_from(
    e: AcBlock,
    shifts: Seq<Shift>,
    region: BlockRegion,
    bx: int,
    by: int,
    k: int,
) -> bool {
    let c = e.channel as int;
    let x = full(e.bx as int, shifts[c].h);
    let y = full(e.by as int, shifts[c].v);
    &&& c < 3
    &&& region.start_bx <= x < region.end_bx
    &&& y < region.end_by
    &&& y > by || (y == by && (x > bx || (x == bx && coded_step(c) >= k)))
}

proof fn lemma_listed(
    channels: Seq<Vec<BlockRow>>,
    shifts: Seq<Shift>,
    region: BlockRegion,
    bx: int,
    by: int,
    k: int,
)
    requires
        region.start_bx <= bx,
        region.start_by <= by,
        0 <= k,
    ensures
        ({
            let list = blocks_from(channels, shifts, region, bx, by, k);
            &&& list.no_duplicates()
            &&& forall|i: int|
                0 <= i < list.len() ==> listed_from(#[trigger] list[i], shifts, region, bx, by, k)
        }),
    decreases region.end_by - by, region.end_bx - bx, 3 - k,
{
    let list = blocks_from(channels, shifts, region, bx, by, k);
    if by >= region.end_by {
    } else if bx >= region.end_bx {
        lemma_listed(channels, shifts, region, region.start_bx as int, by + 1, 0);
    } else if k >= 3 {
        lemma_listed(channels, shifts, region, bx + 1, by, 0);
    } else {
        lemma_listed(channels, shifts, region, bx, by, k + 1);
        let rest = blocks_from(channels, shifts, region, bx, by, k + 1);
        let entry = block_entry(channels, shifts, region, bx, by, k);
        let c = coded_channel(k);
        if off_grid(shifts[c], bx, by) {
            assert(list =~= rest);
        } else {
            let e = entry[0];
            assert(list =~= seq![e] + rest);
            assert(listed_from(e, shifts, region, bx, by, k));
            assert forall|i: int| 0 <= i < list.len() implies listed_from(
                #[trigger] list[i],
                shifts,
                region,
                bx,
                by,
                k,
            ) by {
                if i > 0 {
                    assert(list[i] == rest[i - 1]);
                    assert(listed_from(rest[i - 1], shifts, region, bx, by, k + 1));
                }
            }
            assert forall|i: int, j: int|
                0 <= i < list.len() && 0 <= j < list.len() && i != j implies list[i] != list[j] by {
                if i > 0 && j > 0 {
                    assert(list[i] == rest[i - 1] && list[j] == rest[j - 1]);
                } else {
                    let m = if i > 0 {
                        i
                    } else {
                        j
                    };
                    assert(list[m] == rest[m - 1]);
                    assert(listed_from(rest[m - 1], shifts, region, bx, by, k + 1));
                }
            }
        }
    }
}

/// The list from any earlier place on holds a block of the region.
proof fn lemma_contains(
    channels: Seq<Vec<BlockRow>>,
    shifts: Seq<Shift>,
    region: BlockRegion,
    bx: int,
    by: int,
    k: int,
    tx: int,
    ty: int,
    tk: int,
)
    requires
        region.start_bx <= bx,
        region.start_bx <= tx < region.end_bx,
        ty < region.end_by,
        0 <= k,
        0 <= tk < 3,
        !off_grid(shifts[coded_channel(tk)], tx, ty),
        by < ty || (by == ty && (bx < tx || (bx == tx && k <= tk))),
    ensures
        blocks_from(channels, shifts, region, bx, by, k).contains(
            block_entry(channels, shifts, region, tx, ty, tk)[0],
        ),
    decreases region.end_by - by, region.end_bx - bx, 3 - k,
{
    let target = block_entry(channels, shifts, region, tx, ty, tk)[0];
    let list = blocks_from(channels, shifts, region, bx, by, k);
    if bx >= region.end_bx {
        lemma_contains(
            channels,
            shifts,
            region,
            region.start_bx as int,
            by + 1,
            0,
            tx,
            ty,
            tk,
        );
    } else if k >= 3 {
        lemma_contains(channels, shifts, region, bx + 1, by, 0, tx, ty, tk);
    } else {
        let entry = block_entry(channels, shifts, region, bx, by, k);
        let rest = blocks_from(channels, shifts, region, bx, by, k + 1);
        if bx == tx && by == ty && k == tk {
            assert(list[0] == target);
        } else {
            lemma_contains(channels, shifts, region, bx, by, k + 1, tx, ty, tk);
            let i = choose|i: int| 0 <= i < rest.len() && rest[i] == target;
            assert(list[entry.len() + i] == target);
        }
    }
}

/// The list names the block at column `x` of row `y` of channel `c`.
pub open spec fn names(list: Seq<AcBlock>, c: int, x: int, y: int) -> bool {
    exists|i: int|
        0 <= i < list.len() && (#[trigger] list[i]).channel == c && list[i].bx == x && list[i].by
            == y
}

/// Number of the group in which a block is coded.
pub open spec fn home_group(size: RecodeSize, s: Shift, x: int, y: int) -> int {
    full(y, s.v) / 32 * size.xsize_groups + full(x, s.h) / 32
}

/// Every block of every channel is coded in the one group that covers it, and no group codes a
/// block twice.
pub proof fn lemma_coded_once(
    channels: Seq<Vec<BlockRow>>,
    shifts: Seq<Shift>,
    size: RecodeSize,
    c: int,
    x: int,
    y: int,
    g: int,
)
    requires
        channels_cover(channels, shifts, size.xsize_blocks as int, size.ysize_blocks as int),
        1 <= size.xsize_groups <= 256,
        1 <= size.ysize_groups <= 256,
        (size.xsize_groups - 1) * 32 < size.xsize_blocks <= size.xsize_groups * 32,
        (size.ysize_groups - 1) * 32 < size.ysize_blocks <= size.ysize_groups * 32,
        0 <= c < 3,
        0 <= x < halved(size.xsize_blocks as int, shifts[c].h),
        0 <= y < halved(size.ysize_blocks as int, shifts[c].v),
        0 <= g < size.xsize_groups * size.ysize_groups,
    ensures
        0 <= home_group(size, shifts[c], x, y) < size.xsize_groups * size.ysize_groups,
        names(group_blocks(channels, shifts, ac_region(size, g)), c, x, y) == (g == home_group(
            size,
            shifts[c],
            x,
            y,
        )),
        group_blocks(channels, shifts, ac_region(size, g)).no_duplicates(),
{
    let s = shifts[c];
    let per_row = size.xsize_groups as int;
    let rows = size.ysize_groups as int;
    let tx = full(x, s.h);
    let ty = full(y, s.v);
    let gx = tx / 32;
    let gy = ty / 32;
    let home = gy * per_row + gx;
    assert(0 <= gx < per_row && 0 <= gy < rows);
    crate::jxl::grid::lemma_flat(gx, gy, per_row, rows);
    vstd::arithmetic::div_mod::lemma_fundamental_div_mod(g, per_row);
    vstd::arithmetic::div_mod::lemma_mod_bound(g, per_row);
    let qx = g % per_row;
    let qy = g / per_row;
    assert(qy * per_row == per_row * qy) by (nonlinear_arith);
    assert(0 <= qy < rows) by (nonlinear_arith)
        requires
            g == per_row * qy + qx,
            0 <= qx < per_row,
            0 <= g < per_row * rows,
    ;
    let region = ac_region(size, g);
    assert(region.start_bx == qx * 32 && region.start_by == qy * 32);
    let list = group_blocks(channels, shifts, region);
    lemma_listed(channels, shifts, region, region.start_bx as int, region.start_by as int, 0);
    if names(list, c, x, y) {
        let i = choose|i: int|
            0 <= i < list.len() && (#[trigger] list[i]).channel == c && list[i].bx == x
                && list[i].by == y;
        assert(listed_from(
            list[i],
            shifts,
            region,
            region.start_bx as int,
            region.start_by as int,
            0,
        ));
        assert(gx == qx && gy == qy);
        assert(g == home);
    }
    if g == home {
        crate::jxl::grid::lemma_flat_injective(gx, gy, qx, qy, per_row);
        let tk = coded_step(c);
        assert(coded_channel(tk) == c);
        assert(tx < region.end_bx && ty < region.end_by);
        lemma_contains(
            channels,
            shifts,
            region,
            region.start_bx as int,
            region.start_by as int,
            0,
            tx,
            ty,
            tk,
        );
        let e = block_entry(channels, shifts, region, tx, ty, tk)[0];
        assert(e.channel == c && e.bx == x && e.by == y);
        let i = choose|i: int| 0 <= i < list.len() && list[i] == e;
        assert(list[i].channel == c);
        assert(names(list, c, x, y));
    }
}

/// The block of one entry comes before that of another: in an earlier row of the image, in an earlier
/// column of the same row, or at the same place in an earlier step.
pub open spec fn comes_before(a: AcBlock, b: AcBlock, shifts: Seq<Shift>) -> bool {
    let ax = full(a.bx as int, shifts[a.channel as int].h);
    let ay = full(a.by as int, shifts[a.channel as int].v);
    let bx = full(b.bx as int, shifts[b.channel as int].h);
    let by = full(b.by as int, shifts[b.channel as int].v);
    ay < by || (ay == by && (ax < bx || (ax == bx && coded_step(a.channel as int) < coded_step(
        b.channel as int,
    ))))
}

proof fn lemma_sorted(
    channels: Seq<Vec<BlockRow>>,
    shifts: Seq<Shift>,
    region: BlockRegion,
    bx: int,
    by: int,
    k: int,
    i: int,
    j: int,
)
    requires
        region.start_bx <= bx,
        region.start_by <= by,
        0 <= k,
        0 <= i < j < blocks_from(channels, shifts, region, bx, by, k).len(),
    ensures
        ({
            let list = blocks_from(channels, shifts, region, bx, by, k);
            comes_before(list[i], list[j], shifts)
        }),
    decreases region.end_by - by, region.end_bx - bx, 3 - k,
{
    let list = blocks_from(channels, shifts, region, bx, by, k);
    if by >= region.end_by {
    } else if bx >= region.end_bx {
        lemma_sorted(channels, shifts, region, region.start_bx as int, by + 1, 0, i, j);
    } else if k >= 3 {
        lemma_sorted(channels, shifts, region, bx + 1, by, 0, i, j);
    } else {
        let rest = blocks_from(channels, shifts, region, bx, by, k + 1);
        let entry = block_entry(channels, shifts, region, bx, by, k);
        let c = coded_channel(k);
        if off_grid(shifts[c], bx, by) {
            assert(list =~= rest);
            lemma_sorted(channels, shifts, region, bx, by, k + 1, i, j);
        } else {
            let e = entry[0];
            assert(list =~= seq![e] + rest);
            if i > 0 {
                lemma_sorted(channels, shifts, region, bx, by, k + 1, i - 1, j - 1);
            } else {
                lemma_listed(channels, shifts, region, bx, by, k + 1);
                assert(listed_from(rest[j - 1], shifts, region, bx, by, k + 1));
                assert(list[i] == e && list[j] == rest[j - 1]);
            }
        }
    }
}

/// The blocks of a group are coded row by row, and at each place luma before the two channels of
/// color.
pub proof fn lemma_coded_in_order(
    channels: Seq<Vec<BlockRow>>,
    shifts: Seq<Shift>,
    region: BlockRegion,
    i: int,
    j: int,
)
    requires
        0 <= i < j < group_blocks(channels, shifts, region).len(),
    ensures
        ({
            let list = group_blocks(channels, shifts, region);
            comes_before(list[i], list[j], shifts)
        }),
{
    lemma_sorted(
        channels,
        shifts,
        region,
        region.start_bx as int,
        region.start_by as int,
        0,
        i,
        j,
    );
}

} // verus!
