//! Grids, slabs and single blocks get the same coefficients.
use crate::jxl::block::{BlockInfo, TransformType};
use crate::jxl::compact::{block_of, block_slots, in_slab, lemma_same_sum, slab_position};
use crate::jxl::grid::{lemma_flat, lemma_flat_injective};
use crate::jxl::hf_coeff::{CellModel, HfCoeffParams, HfUpdate};
use crate::jxl::hf_store::{
    all_updates, decoded_cell_fits, on_grid, sum_at, update_fits,
};
use crate::vp8::arith::wrap32;
use vstd::prelude::*;

verus! {

/// The block at a cell has no cell of a channel in common with the block at another cell.
pub open spec fn apart(p: HfCoeffParams, c: int, x: int, y: int, x2: int, y2: int) -> bool {
    (p.block_info.at(x, y) matches BlockInfo::Data { dct_select: t, .. } && (p.block_info.at(
        x2,
        y2,
    ) matches BlockInfo::Data { dct_select: t2, .. } && {
        ||| p.sx(c, x) + t.size().0 <= p.sx(c, x2)
        ||| p.sx(c, x2) + t2.size().0 <= p.sx(c, x)
        ||| p.sy(c, y) + t.size().1 <= p.sy(c, y2)
        ||| p.sy(c, y2) + t2.size().1 <= p.sy(c, y)
    }))
}

/// Blocks do not overlap in a channel.
pub open spec fn blocks_apart(p: HfCoeffParams, c: int) -> bool {
    forall|x: int, y: int, x2: int, y2: int|
        #![trigger apart(p, c, x, y, x2, y2)]
        0 <= x < p.block_info.width && 0 <= y < p.block_info.height && 0 <= x2
            < p.block_info.width && 0 <= y2 < p.block_info.height && (x, y) != (x2, y2)
            && p.block_info.at(x, y) is Data && p.block_info.at(x2, y2) is Data && !p.skipped(
            c,
            x,
            y,
        ) && !p.skipped(c, x2, y2) ==> apart(p, c, x, y, x2, y2)
}

pub proof fn lemma_sum_concat(
    a: Seq<HfUpdate>,
    b: Seq<HfUpdate>,
    f: spec_fn(HfUpdate) -> int,
    p: int,
)
    ensures
        sum_at(a + b, f, p) == sum_at(a, f, p) + sum_at(b, f, p),
    decreases b.len(),
{
    if b.len() == 0 {
        assert(a + b =~= a);
    } else {
        assert((a + b).drop_last() =~= a + b.drop_last());
        lemma_sum_concat(a, b.drop_last(), f, p);
    }
}

/// Where a block's coefficient goes on the grid tells where it goes in its slab.
proof fn lemma_positions_agree(
    p: HfCoeffParams,
    u: HfUpdate,
    c: int,
    x: int,
    y: int,
    t: TransformType,
    x2: int,
    y2: int,
    t2: TransformType,
    dx: int,
    dy: int,
    width: int,
)
    requires
        update_fits(p, u, x2, y2, t2),
        0 <= x < p.block_info.width,
        0 <= y < p.block_info.height,
        0 <= x2 < p.block_info.width,
        0 <= y2 < p.block_info.height,
        p.block_info.at(x, y) matches BlockInfo::Data { dct_select, .. } && dct_select == t,
        p.block_info.at(x2, y2) matches BlockInfo::Data { dct_select, .. } && dct_select == t2,
        !p.skipped(c, x, y),
        0 <= dx < 8 * t.size().0,
        0 <= dy < 8 * t.size().1,
        (p.sx(c, x) + t.size().0) * 8 <= width,
        u.channel == c ==> (p.sx(c, x2) + t2.size().0) * 8 <= width,
        blocks_apart(p, c),
    ensures
        (on_grid(c, width)(u) == (p.sy(c, y) * 8 + dy) * width + (p.sx(c, x) * 8 + dx)) == (
        slab_position(u, c, p.sx(c, x), p.sy(c, y)) == dy * (8 * t.size().0) + dx),
{
    let px = p.sx(c, x) * 8 + dx;
    let py = p.sy(c, y) * 8 + dy;
    assert(dy * (8 * t.size().0) >= 0) by (nonlinear_arith)
        requires
            dy >= 0,
            t.size().0 >= 0,
    ;
    assert(py * width + px >= 0) by (nonlinear_arith)
        requires
            py >= 0,
            px >= 0,
            width >= 0,
    ;
    if u.channel == c {
        let ux = u.bx * 8 + u.dx;
        let uy = u.by * 8 + u.dy;
        if uy * width + ux == py * width + px {
            lemma_flat_injective(ux, uy, px, py, width);
        }
        if (x, y) != (x2, y2) {
            assert(apart(p, c, x, y, x2, y2));
        } else {
            if u.dy * (8 * t.size().0) + u.dx == dy * (8 * t.size().0) + dx {
                lemma_flat_injective(u.dx as int, u.dy as int, dx, dy, 8 * t.size().0);
            }
        }
    }
}

/// A pixel of a block on the grid of a channel gains what the same coefficient of the block's
/// slab gains, if no blocks overlap.
pub proof fn lemma_grid_matches_slab(
    p: HfCoeffParams,
    cells: Seq<CellModel>,
    c: int,
    x: int,
    y: int,
    t: TransformType,
    dx: int,
    dy: int,
    width: int,
)
    requires
        forall|i: int| 0 <= i < cells.len() ==> decoded_cell_fits(p, #[trigger] cells[i]),
        forall|i: int|
            0 <= i < cells.len() && !p.skipped(c, cells[i].x as int, cells[i].y as int) ==> (p.sx(
                c,
                #[trigger] cells[i].x as int,
            ) + cells[i].dct_select.size().0) * 8 <= width,
        0 <= c < 3,
        0 <= x < p.block_info.width,
        0 <= y < p.block_info.height,
        p.block_info.at(x, y) matches BlockInfo::Data { dct_select, .. } && dct_select == t,
        !p.skipped(c, x, y),
        (p.sx(c, x) + t.size().0) * 8 <= width,
        0 <= dx < 8 * t.size().0,
        0 <= dy < 8 * t.size().1,
        blocks_apart(p, c),
    ensures
        sum_at(
            all_updates(cells),
            on_grid(c, width),
            (p.sy(c, y) * 8 + dy) * width + (p.sx(c, x) * 8 + dx),
        ) == sum_at(
            all_updates(cells),
            in_slab(c, p.sx(c, x), p.sy(c, y)),
            dy * (8 * t.size().0) + dx,
        ),
    decreases cells.len(),
{
    if cells.len() > 0 {
        let n = cells.len() - 1;
        let head = cells.drop_last();
        let cell = cells[n];
        assert forall|i: int| 0 <= i < head.len() implies decoded_cell_fits(
            p,
            #[trigger] head[i],
        ) by {
            assert(head[i] == cells[i]);
        }
        assert forall|i: int|
            0 <= i < head.len() && !p.skipped(c, head[i].x as int, head[i].y as int) implies (p.sx(
            c,
            #[trigger] head[i].x as int,
        ) + head[i].dct_select.size().0) * 8 <= width by {
            assert(head[i] == cells[i]);
        }
        lemma_grid_matches_slab(p, head, c, x, y, t, dx, dy, width);
        let f = on_grid(c, width);
        let g = in_slab(c, p.sx(c, x), p.sy(c, y));
        let a = (p.sy(c, y) * 8 + dy) * width + (p.sx(c, x) * 8 + dx);
        let b = dy * (8 * t.size().0) + dx;
        let us = cell.updates;
        assert(cells[n].x as int == cell.x);
        assert forall|i: int| 0 <= i < us.len() implies ((f(#[trigger] us[i]) == a) == (g(us[i])
            == b)) by {
            assert(update_fits(p, us[i], cell.x as int, cell.y as int, cell.dct_select));
            lemma_positions_agree(
                p,
                us[i],
                c,
                x,
                y,
                t,
                cell.x as int,
                cell.y as int,
                cell.dct_select,
                dx,
                dy,
                width,
            );
        }
        lemma_same_sum(us, f, a, g, b);
        lemma_sum_concat(all_updates(head), us, f, a);
        lemma_sum_concat(all_updates(head), us, g, b);
    }
}

/// A block that is decoded on its own holds, for each channel, what its slab gains from it.
pub proof fn lemma_block_matches_slab(
    p: HfCoeffParams,
    cell: CellModel,
    c: int,
    dx: int,
    dy: int,
)
    requires
        decoded_cell_fits(p, cell),
        0 <= c < 3,
        0 <= dx < 8 * cell.dct_select.size().0,
        0 <= dy < 8 * cell.dct_select.size().1,
    ensures
        block_of(cell).coeffs[c * (64 * cell.dct_select.blocks()) + dy * (8
            * cell.dct_select.size().0) + dx] == wrap32(
            sum_at(
                cell.updates,
                in_slab(c, p.sx(c, cell.x as int), p.sy(c, cell.y as int)),
                dy * (8 * cell.dct_select.size().0) + dx,
            ),
        ),
{
    let t = cell.dct_select;
    let w = t.size().0;
    let h = t.size().1;
    let size = 64 * t.blocks();
    let i = dy * (8 * w) + dx;
    let f = block_slots(size);
    let g = in_slab(c, p.sx(c, cell.x as int), p.sy(c, cell.y as int));
    let us = cell.updates;
    assert((8 * w) * (8 * h) == 64 * (w * h)) by (nonlinear_arith);
    lemma_flat(dx, dy, 8 * w, 8 * h);
    assert(0 <= c * size <= 2 * size) by (nonlinear_arith)
        requires
            0 <= c <= 2,
            size >= 0,
    ;
    assert forall|k: int| 0 <= k < us.len() implies ((f(#[trigger] us[k]) == c * size + i) == (g(
        us[k],
    ) == i)) by {
        let u = us[k];
        assert(update_fits(p, u, cell.x as int, cell.y as int, t));
        lemma_flat(u.dx as int, u.dy as int, 8 * w, 8 * h);
        let d = u.channel as int;
        let off = u.dy * u.block_width + u.dx;
        if d * size + off == c * size + i {
            assert(d == c) by (nonlinear_arith)
                requires
                    d * size + off == c * size + i,
                    0 <= off < size,
                    0 <= i < size,
            ;
        }
    }
    lemma_same_sum(us, f, c * size + i, g, i);
}

} // verus!
