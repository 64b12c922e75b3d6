//! Walks over the blocks of a group, and the tiles of chroma prediction that they meet.
use crate::jxl::block::{shifted, BlockInfo, ChannelShift, TransformType};
use crate::jxl::grid::SharedSubgrid;
use vstd::prelude::*;

verus! {

/// Pixels in a row of a tile in which chroma is predicted from luma in one way.
pub const TILE: usize = 64;

/// A block of a channel.
#[derive(Debug, Clone, Copy)]
pub struct VarblockInfo {
    pub shifted_bx: usize,
    pub shifted_by: usize,
    pub dct_select: TransformType,
    pub hf_mul: i32,
}

/// Whether the channel has no block of its own at a cell.
pub open spec fn no_block(info: SharedSubgrid<BlockInfo>, s: ChannelShift, x: int, y: int) -> bool {
    &&& s.h_subsample || s.v_subsample
    &&& {
        ||| s.h_subsample && x % 2 == 1
        ||| s.v_subsample && y % 2 == 1
        ||| !(info.at(shifted(x, s.h_subsample), shifted(y, s.v_subsample)) is Data)
    }
}

/// The blocks of a channel from cell `x`, `y` on, in row order.
pub open spec fn varblocks_from(
    info: SharedSubgrid<BlockInfo>,
    s: ChannelShift,
    x: int,
    y: int,
) -> Seq<VarblockInfo>
    decreases info.height - y, info.width - x,
{
    if y >= info.height {
        Seq::empty()
    } else if x >= info.width {
        varblocks_from(info, s, 0, y + 1)
    } else {
        let rest = varblocks_from(info, s, x + 1, y);
        match info.at(x, y) {
            BlockInfo::Data { dct_select, hf_mul } => if no_block(info, s, x, y) {
                rest
            } else {
                seq![
                    VarblockInfo {
                        shifted_bx: shifted(x, s.h_subsample) as usize,
                        shifted_by: shifted(y, s.v_subsample) as usize,
                        dct_select,
                        hf_mul,
                    },
                ] + rest
            },
            _ => rest,
        }
    }
}

pub open spec fn all_varblocks(info: SharedSubgrid<BlockInfo>, s: ChannelShift) -> Seq<VarblockInfo> {
    varblocks_from(info, s, 0, 0)
}

/// Lists the blocks of a channel.
pub fn for_each_varblocks(block_info: &SharedSubgrid<'_, BlockInfo>, shift: ChannelShift) -> (r: Vec<
    VarblockInfo,
>)
    requires
        block_info.wf(),
    ensures
        r@ == all_varblocks(*block_info, shift),
{
    let width: usize = block_info.width;
    let height: usize = block_info.height;
    let mut r: Vec<VarblockInfo> = Vec::new();
    let ghost goal = all_varblocks(*block_info, shift);
    let mut y: usize = 0;
    let mut x: usize = 0;
    assert(r@ + goal =~= goal);
    while y < height
        invariant
            block_info.wf(),
            width == block_info.width,
            height == block_info.height,
            x <= width,
            y <= height,
            r@ + varblocks_from(*block_info, shift, x as int, y as int) == goal,
        decreases height - y, width - x,
    {
        if x >= width {
            x = 0;
            y = y + 1;
        } else {
            match block_info.get(x, y) {
                BlockInfo::Data { dct_select, hf_mul } => {
                    let sx: usize = shift.hshift(x);
                    let sy: usize = shift.vshift(y);
                    let mut keep: bool = true;
                    if shift.h_subsample || shift.v_subsample {
                        if (shift.h_subsample && x % 2 == 1) || (shift.v_subsample && y % 2 == 1) {
                            keep = false;
                        } else {
                            match block_info.get(sx, sy) {
                                BlockInfo::Data { .. } => {},
                                _ => {
                                    keep = false;
                                },
                            }
                        }
                    }
                    assert(keep == !no_block(*block_info, shift, x as int, y as int));
                    if keep {
                        let ghost before = r@;
                        let ghost rest = varblocks_from(*block_info, shift, x + 1, y as int);
                        let v = VarblockInfo {
                            shifted_bx: sx,
                            shifted_by: sy,
                            dct_select,
                            hf_mul,
                        };
                        r.push(v);
                        assert(before + (seq![v] + rest) =~= r@ + rest);
                    }
                },
                _ => {},
            }
            x = x + 1;
        }
    }
    assert(r@ + Seq::<VarblockInfo>::empty() =~= r@);
    r
}

/// A cell where a block of the channel starts, and that block.
pub open spec fn is_varblock(
    info: SharedSubgrid<BlockInfo>,
    s: ChannelShift,
    x: int,
    y: int,
    v: VarblockInfo,
) -> bool {
    &&& 0 <= x < info.width
    &&& 0 <= y < info.height
    &&& info.at(x, y) == (BlockInfo::Data { dct_select: v.dct_select, hf_mul: v.hf_mul })
    &&& !no_block(info, s, x, y)
    &&& v.shifted_bx == shifted(x, s.h_subsample)
    &&& v.shifted_by == shifted(y, s.v_subsample)
}

/// Every block of the channel from cell `x`, `y` on is listed.
pub proof fn lemma_listed(
    info: SharedSubgrid<BlockInfo>,
    s: ChannelShift,
    x: int,
    y: int,
    tx: int,
    ty: int,
    v: VarblockInfo,
)
    requires
        is_varblock(info, s, tx, ty, v),
        0 <= x,
        y < ty || (y == ty && x <= tx),
    ensures
        varblocks_from(info, s, x, y).contains(v),
    decreases info.height - y, info.width - x,
{
    let list = varblocks_from(info, s, x, y);
    if x >= info.width {
        lemma_listed(info, s, 0, y + 1, tx, ty, v);
    } else if x == tx && y == ty {
        assert(list[0] == v);
    } else {
        lemma_listed(info, s, x + 1, y, tx, ty, v);
        let rest = varblocks_from(info, s, x + 1, y);
        let i = choose|i: int| 0 <= i < rest.len() && rest[i] == v;
        if info.at(x, y) is Data && !no_block(info, s, x, y) {
            assert(list[i + 1] == v);
        } else {
            assert(list[i] == v);
        }
    }
}

/// Every listed block starts at a cell.
pub proof fn lemma_listed_cell(
    info: SharedSubgrid<BlockInfo>,
    s: ChannelShift,
    x: int,
    y: int,
    i: int,
) -> (cell: (int, int))
    requires
        0 <= x,
        0 <= y,
        0 <= i < varblocks_from(info, s, x, y).len(),
    ensures
        is_varblock(info, s, cell.0, cell.1, varblocks_from(info, s, x, y)[i]),
    decreases info.height - y, info.width - x,
{
    if x >= info.width {
        lemma_listed_cell(info, s, 0, y + 1, i)
    } else if info.at(x, y) is Data && !no_block(info, s, x, y) {
        if i == 0 {
            (x, y)
        } else {
            assert(varblocks_from(info, s, x, y)[i] == varblocks_from(info, s, x + 1, y)[i - 1]);
            lemma_listed_cell(info, s, x + 1, y, i - 1)
        }
    } else {
        lemma_listed_cell(info, s, x + 1, y, i)
    }
}

/// Whether a group holds nothing but the smallest transform; cells may be unset.
pub open spec fn only_dct8(info: SharedSubgrid<BlockInfo>) -> bool {
    forall|x: int, y: int|
        #![trigger info.at(x, y)]
        0 <= x < info.width && 0 <= y < info.height ==> is_dct8(info.at(x, y))
}

pub open spec fn is_dct8(info: BlockInfo) -> bool {
    match info {
        BlockInfo::Data { dct_select, .. } => dct_select == TransformType::Dct8,
        BlockInfo::Uninit => true,
        BlockInfo::Occupied => false,
    }
}

pub fn all_blocks_are_dct8(block_info: &SharedSubgrid<'_, BlockInfo>) -> (r: bool)
    requires
        block_info.wf(),
    ensures
        r == only_dct8(*block_info),
{
    let mut y: usize = 0;
    while y < block_info.height
        invariant
            block_info.wf(),
            y <= block_info.height,
            forall|i: int, j: int|
                #![trigger block_info.at(i, j)]
                0 <= i < block_info.width && 0 <= j < y ==> is_dct8(block_info.at(i, j)),
        decreases block_info.height - y,
    {
        let mut x: usize = 0;
        while x < block_info.width
            invariant
                block_info.wf(),
                y < block_info.height,
                x <= block_info.width,
                forall|i: int, j: int|
                    #![trigger block_info.at(i, j)]
                    0 <= i < block_info.width && 0 <= j < y ==> is_dct8(block_info.at(i, j)),
                forall|i: int|
                    #![trigger block_info.at(i, y as int)]
                    0 <= i < x ==> is_dct8(block_info.at(i, y as int)),
            decreases block_info.width - x,
        {
            match block_info.get(x, y) {
                BlockInfo::Data { dct_select: TransformType::Dct8, .. } | BlockInfo::Uninit => {},
                _ => {
                    assert(!is_dct8(block_info.at(x as int, y as int)));
                    return false;
                },
            }
            x = x + 1;
        }
        y = y + 1;
    }
    true
}

// ---- tiles ----
/// A part of a row of a block that lies in one tile.
#[derive(Debug, Clone, Copy, PartialEq, Eq, Structural)]
pub struct Segment {
    pub x: usize,
    pub len: usize,
    pub tile: usize,
}

/// Where the segment that starts at `x` of a row of `width` pixels ends.
pub open spec fn segment_end(left: int, width: int, x: int) -> int {
    let end = ((left + x) / 64 + 1) * 64 - left;
    if end < width {
        end
    } else {
        width
    }
}

/// The segments of a row from `x` on.
pub open spec fn segments_from(left: int, width: int, x: int) -> Seq<Segment>
    decreases width - x,
{
    if x >= width {
        Seq::empty()
    } else {
        let end = segment_end(left, width, x);
        seq![
            Segment { x: x as usize, len: (end - x) as usize, tile: ((left + x) / 64) as usize },
        ] + segments_from(
            left,
            width,
            if end > x {
                end
            } else {
                width
            },
        )
    }
}

pub fn row_segments(left: usize, width: usize) -> (r: Vec<Segment>)
    requires
        left + width <= usize::MAX,
    ensures
        r@ == segments_from(left as int, width as int, 0),
{
    let mut r: Vec<Segment> = Vec::new();
    let ghost goal = segments_from(left as int, width as int, 0);
    let mut x: usize = 0;
    assert(r@ + goal =~= goal);
    while x < width
        invariant
            x <= width,
            left + width <= usize::MAX,
            r@ + segments_from(left as int, width as int, x as int) == goal,
        decreases width - x,
    {
        let tile: usize = (left + x) / TILE;
        let room: usize = TILE - (left + x) % TILE;
        let next: usize = if room < width - x {
            x + room
        } else {
            width
        };
        let ghost before = r@;
        let ghost rest = segments_from(left as int, width as int, next as int);
        let s = Segment { x, len: next - x, tile };
        r.push(s);
        assert(before + (seq![s] + rest) =~= r@ + rest);
        x = next;
    }
    assert(r@ + Seq::<Segment>::empty() =~= r@);
    r
}

/// The segments cover the row without gaps, each within one tile.
pub proof fn lemma_segments(left: int, width: int, x: int, p: int)
    requires
        0 <= left,
        0 <= x <= p < width,
        left + width <= usize::MAX,
    ensures
        exists|i: int| #[trigger]
            covers_pixel(segments_from(left, width, x), i, p) && segments_from(
                left,
                width,
                x,
            )[i].tile == (left + p) / 64,
        forall|i: int, j: int|
            covers_pixel(segments_from(left, width, x), i, p) && covers_pixel(
                segments_from(left, width, x),
                j,
                p,
            ) ==> i == j,
        forall|i: int|
            0 <= i < segments_from(left, width, x).len() ==> (#[trigger] segments_from(
                left,
                width,
                x,
            )[i]).x >= x,
    decreases width - x,
{
    let list = segments_from(left, width, x);
    let end = segment_end(left, width, x);
    let rest = segments_from(left, width, end);
    assert(end > x);
    assert(list =~= seq![list[0]] + rest);
    lemma_starts(left, width, end);
    assert forall|i: int| 0 <= i < list.len() implies (#[trigger] list[i]).x >= x by {
        if i > 0 {
            assert(list[i] == rest[i - 1]);
        }
    }
    if p < end {
        assert(covers_pixel(list, 0, p));
        assert forall|i: int, j: int| covers_pixel(list, i, p) && covers_pixel(
            list,
            j,
            p,
        ) implies i == j by {
            if i > 0 {
                assert(list[i] == rest[i - 1]);
            }
            if j > 0 {
                assert(list[j] == rest[j - 1]);
            }
        }
    } else {
        lemma_segments(left, width, end, p);
        let i = choose|i: int| #[trigger]
            covers_pixel(rest, i, p) && rest[i].tile == (left + p) / 64;
        assert(list[i + 1] == rest[i]);
        assert(covers_pixel(list, i + 1, p));
        assert forall|a: int, b: int| covers_pixel(list, a, p) && covers_pixel(
            list,
            b,
            p,
        ) implies a == b by {
            if a > 0 && b > 0 {
                assert(list[a] == rest[a - 1] && list[b] == rest[b - 1]);
                assert(covers_pixel(rest, a - 1, p) && covers_pixel(rest, b - 1, p));
            }
        }
    }
}

pub open spec fn covers_pixel(list: Seq<Segment>, i: int, p: int) -> bool {
    0 <= i < list.len() && list[i].x <= p < list[i].x + list[i].len
}

proof fn lemma_starts(left: int, width: int, x: int)
    requires
        0 <= left,
        0 <= x <= width,
        left + width <= usize::MAX,
    ensures
        forall|i: int|
            0 <= i < segments_from(left, width, x).len() ==> (#[trigger] segments_from(
                left,
                width,
                x,
            )[i]).x >= x,
    decreases width - x,
{
    if x < width {
        let end = segment_end(left, width, x);
        lemma_starts(left, width, end);
        let list = segments_from(left, width, x);
        let rest = segments_from(left, width, end);
        assert forall|i: int| 0 <= i < list.len() implies (#[trigger] list[i]).x >= x by {
            if i > 0 {
                assert(list[i] == rest[i - 1]);
            }
        }
    }
}

/// A block whose width divides 64 and which starts at a multiple of it lies in one column of
/// tiles.
pub proof fn lemma_one_tile(left: int, width: int, dx: int)
    requires
        width == 8 || width == 16 || width == 32 || width == 64,
        0 <= left,
        left % width == 0,
        0 <= dx < width,
    ensures
        (left + dx) / 64 == left / 64,
{
    let q = left / 64;
    let r = left % 64;
    assert(left == 64 * q + r && 0 <= r < 64);
    if width == 8 {
        assert(r % 8 == 0 && r <= 56);
    } else if width == 16 {
        assert(r % 16 == 0 && r <= 48);
    } else if width == 32 {
        assert(r % 32 == 0 && r <= 32);
    } else {
        assert(r == 0);
    }
    assert(0 <= r + dx < 64);
}

} // verus!
