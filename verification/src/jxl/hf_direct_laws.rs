//! Blocks that are decoded one at a time, slabs and grids hold the same coefficients.
use crate::jxl::block::{lemma_blocks, lemma_no_subsampling, BlockInfo, ChannelShift};
use crate::jxl::compact::{
    block_of, in_slab, in_store, lemma_in_store, lemma_slab_gains, slab_position, store_fits,
    whole_blocks, CompactHfCoeffStore,
};
use crate::jxl::block_transform::rect_of;
use crate::jxl::grid::{lemma_flat, Grid};
use crate::jxl::group_direct::{channel_coeffs, varblock_of};
use crate::jxl::group_slabs::{lemma_made_cell, lemma_made_fits, made_for, no_coefficients};
use crate::jxl::group_transform::lemma_sides;
use crate::jxl::hf_coeff::{
    bits_below, cells_run, channels_run, group_run, zero_rows, CellModel, HfCoeffParams, HfUpdate,
    CONTEXTS_PER_CLUSTER,
};
use crate::jxl::hf_laws::{
    blocks_apart, lemma_block_matches_slab, lemma_grid_matches_slab, lemma_sum_concat,
};
use crate::jxl::hf_store::{
    added, all_updates, decoded_cell_fits, lemma_group_fits, on_grid, sum_at, update_fits,
};
use crate::jxl::symbols::SymbolSource;
use crate::jxl::varblocks::{all_varblocks, varblocks_from, VarblockInfo};
use crate::vp8::arith::wrap32;
use vstd::prelude::*;

verus! {

/// No channel is subsampled.
pub open spec fn plain(p: HfCoeffParams) -> bool {
    forall|k: int| 0 <= k < 3 ==> #[trigger] p.jpeg_upsampling@[k] == 0
}

/// The shift of a channel that is not subsampled.
pub open spec fn no_shift() -> ChannelShift {
    ChannelShift {
        has_h_subsample: false,
        h_subsample: false,
        has_v_subsample: false,
        v_subsample: false,
    }
}

/// A decoded cell as a block of its channels.
pub open spec fn block_of_cell(cell: CellModel) -> VarblockInfo {
    varblock_of(block_of(cell))
}

/// Row order.
pub open spec fn precedes(ax: int, ay: int, bx: int, by: int) -> bool {
    ay < by || (ay == by && ax < bx)
}

/// The cells are the blocks from `x`, `y` on, each of them complete, in row order.
pub open spec fn cells_listed(p: HfCoeffParams, cells: Seq<CellModel>, x: int, y: int) -> bool {
    let list = varblocks_from(p.block_info, no_shift(), x, y);
    &&& cells.len() == list.len()
    &&& forall|i: int|
        0 <= i < cells.len() ==> (#[trigger] cells[i]).complete && block_of_cell(cells[i])
            == list[i] && !precedes(cells[i].x as int, cells[i].y as int, x, y)
    &&& forall|i: int, j: int|
        0 <= i < j < cells.len() ==> precedes(
            (#[trigger] cells[i]).x as int,
            cells[i].y as int,
            (#[trigger] cells[j]).x as int,
            cells[j].y as int,
        )
}

proof fn lemma_cells_listed<R: SymbolSource>(
    p: HfCoeffParams,
    map: Seq<u8>,
    x: int,
    y: int,
    m: R::Model,
    rows: Seq<Seq<u32>>,
)
    requires
        0 <= x,
        0 <= y,
        cells_run::<R>(p, map, x, y, m, rows).0 is Ok,
    ensures
        cells_listed(p, cells_run::<R>(p, map, x, y, m, rows).2, x, y),
    decreases p.block_info.height - y, p.block_info.width - x,
{
    if y < p.block_info.height {
        if x >= p.block_info.width {
            lemma_cells_listed::<R>(p, map, 0, y + 1, m, rows);
        } else {
            match p.block_info.at(x, y) {
                BlockInfo::Data { dct_select, hf_mul } => {
                    let (run, rows2) = channels_run::<R>(
                        p,
                        map,
                        dct_select,
                        hf_mul,
                        x,
                        y,
                        0,
                        m,
                        rows,
                    );
                    lemma_cells_listed::<R>(p, map, x + 1, y, run.1, rows2);
                    let rest = cells_run::<R>(p, map, x + 1, y, run.1, rows2).2;
                    let cells = cells_run::<R>(p, map, x, y, m, rows).2;
                    let list = varblocks_from(p.block_info, no_shift(), x, y);
                    let tail = varblocks_from(p.block_info, no_shift(), x + 1, y);
                    assert forall|i: int| 0 <= i < cells.len() implies (
                    #[trigger] cells[i]).complete && block_of_cell(cells[i]) == list[i]
                        && !precedes(cells[i].x as int, cells[i].y as int, x, y) by {
                        if i > 0 {
                            assert(cells[i] == rest[i - 1]);
                            assert(list[i] == tail[i - 1]);
                        }
                    }
                    assert forall|i: int, j: int| 0 <= i < j < cells.len() implies precedes(
                        (#[trigger] cells[i]).x as int,
                        cells[i].y as int,
                        (#[trigger] cells[j]).x as int,
                        cells[j].y as int,
                    ) by {
                        assert(cells[j] == rest[j - 1]);
                        if i > 0 {
                            assert(cells[i] == rest[i - 1]);
                        }
                    }
                },
                _ => {
                    lemma_cells_listed::<R>(p, map, x + 1, y, m, rows);
                },
            }
        }
    }
}

proof fn lemma_group_listed<R: SymbolSource>(p: HfCoeffParams, m: R::Model)
    requires
        group_run::<R>(p, m).0 is Ok,
    ensures
        cells_listed(p, group_run::<R>(p, m).2, 0, 0),
{
    let (r1, m1) = R::bits(m, bits_below(p.num_hf_presets as int, 0));
    let preset = r1->Ok_0;
    let (r2, m2) = R::begun(m1);
    let size = CONTEXTS_PER_CLUSTER * p.clusters();
    let map = p.hf_pass.cluster_map@.subrange(size * preset, size * preset + size);
    lemma_cells_listed::<R>(p, map, 0, 0, m2, zero_rows(p));
}

/// Complete cells are all handed out.
proof fn lemma_all_whole(cells: Seq<CellModel>)
    requires
        forall|i: int| 0 <= i < cells.len() ==> (#[trigger] cells[i]).complete,
    ensures
        whole_blocks(cells) == Seq::new(cells.len(), |i: int| block_of(cells[i])),
    decreases cells.len(),
{
    if cells.len() > 0 {
        let rest = cells.drop_last();
        assert forall|i: int| 0 <= i < rest.len() implies (#[trigger] rest[i]).complete by {
            assert(rest[i] == cells[i]);
        }
        lemma_all_whole(rest);
        assert(cells.last() == cells[cells.len() - 1]);
    }
    assert(whole_blocks(cells) =~= Seq::new(cells.len(), |i: int| block_of(cells[i])));
}

/// The updates of other blocks do not reach a slab.
proof fn lemma_no_hits(
    p: HfCoeffParams,
    us: Seq<HfUpdate>,
    cell: CellModel,
    c: int,
    x: int,
    y: int,
    i: int,
)
    requires
        plain(p),
        decoded_cell_fits(p, cell),
        us.len() <= cell.updates.len(),
        us == cell.updates.take(us.len() as int),
        (cell.x as int, cell.y as int) != (x, y),
        0 <= i,
    ensures
        sum_at(us, in_slab(c, x, y), i) == 0,
    decreases us.len(),
{
    if us.len() > 0 {
        let n = us.len() - 1;
        let u = cell.updates[n];
        assert(us.last() == u);
        assert(us.drop_last() =~= cell.updates.take(n));
        lemma_no_hits(p, us.drop_last(), cell, c, x, y, i);
        assert(update_fits(p, cell.updates[n], cell.x as int, cell.y as int, cell.dct_select));
        lemma_no_subsampling(p.jpeg_upsampling@, u.channel as int);
        assert(slab_position(u, c, x, y) == -1);
    }
}

/// A slab gains the coefficients of its own block alone.
proof fn lemma_own_sum(
    p: HfCoeffParams,
    cells: Seq<CellModel>,
    n: nat,
    k: int,
    c: int,
    i: int,
)
    requires
        plain(p),
        n <= cells.len(),
        0 <= k < cells.len(),
        forall|j: int| 0 <= j < cells.len() ==> decoded_cell_fits(p, #[trigger] cells[j]),
        forall|a: int, b: int|
            0 <= a < b < cells.len() ==> precedes(
                (#[trigger] cells[a]).x as int,
                cells[a].y as int,
                (#[trigger] cells[b]).x as int,
                cells[b].y as int,
            ),
        0 <= i,
    ensures
        sum_at(
            all_updates(cells.take(n as int)),
            in_slab(c, cells[k].x as int, cells[k].y as int),
            i,
        ) == if k < n {
            sum_at(cells[k].updates, in_slab(c, cells[k].x as int, cells[k].y as int), i)
        } else {
            0
        },
    decreases n,
{
    let f = in_slab(c, cells[k].x as int, cells[k].y as int);
    if n > 0 {
        let j = n - 1;
        lemma_own_sum(p, cells, j as nat, k, c, i);
        assert(cells.take(n as int).drop_last() =~= cells.take(j));
        assert(cells.take(n as int).last() == cells[j]);
        lemma_sum_concat(all_updates(cells.take(j)), cells[j].updates, f, i);
        if j != k {
            assert(decoded_cell_fits(p, cells[j]));
            assert(cells[j].updates =~= cells[j].updates.take(cells[j].updates.len() as int));
            if j < k {
                assert(precedes(
                    cells[j].x as int,
                    cells[j].y as int,
                    cells[k].x as int,
                    cells[k].y as int,
                ));
            } else {
                assert(precedes(
                    cells[k].x as int,
                    cells[k].y as int,
                    cells[j].x as int,
                    cells[j].y as int,
                ));
            }
            lemma_no_hits(
                p,
                cells[j].updates,
                cells[j],
                c,
                cells[k].x as int,
                cells[k].y as int,
                i,
            );
        }
    } else {
        assert(cells.take(0) =~= Seq::<CellModel>::empty());
    }
}

proof fn lemma_updates_in_store(
    p: HfCoeffParams,
    store: CompactHfCoeffStore,
    cells: Seq<CellModel>,
)
    requires
        store_fits(p, store),
        forall|j: int| 0 <= j < cells.len() ==> decoded_cell_fits(p, #[trigger] cells[j]),
    ensures
        forall|k: int|
            0 <= k < all_updates(cells).len() ==> in_store(
                store,
                #[trigger] all_updates(cells)[k],
            ),
    decreases cells.len(),
{
    if cells.len() > 0 {
        let rest = cells.drop_last();
        let cell = cells[cells.len() - 1];
        assert forall|j: int| 0 <= j < rest.len() implies decoded_cell_fits(
            p,
            #[trigger] rest[j],
        ) by {
            assert(rest[j] == cells[j]);
        }
        lemma_updates_in_store(p, store, rest);
        let head = all_updates(rest);
        let all = all_updates(cells);
        assert forall|k: int| 0 <= k < all.len() implies in_store(
            store,
            #[trigger] all[k],
        ) by {
            if k < head.len() {
                assert(all[k] == head[k]);
            } else {
                let u = cell.updates[k - head.len()];
                assert(all[k] == u);
                assert(update_fits(
                    p,
                    cell.updates[k - head.len()],
                    cell.x as int,
                    cell.y as int,
                    cell.dct_select,
                ));
                lemma_in_store(p, store, u, cell.x as int, cell.y as int, cell.dct_select);
            }
        }
    }
}

/// One coefficient of a block equals that of its slab.
proof fn lemma_same_coefficient(
    p: HfCoeffParams,
    store: CompactHfCoeffStore,
    after: CompactHfCoeffStore,
    cells: Seq<CellModel>,
    k: int,
    c: int,
    i: int,
)
    requires
        plain(p),
        store.wf(),
        made_for(store, p.block_info),
        store.data@ == no_coefficients(p.block_info),
        after.cell_start == store.cell_start,
        after.cell_size == store.cell_size,
        after.grid_width == store.grid_width,
        after.data@ == added(store.data@, all_updates(cells), store.slots()),
        forall|j: int| 0 <= j < cells.len() ==> decoded_cell_fits(p, #[trigger] cells[j]),
        forall|a: int, b: int|
            0 <= a < b < cells.len() ==> precedes(
                (#[trigger] cells[a]).x as int,
                cells[a].y as int,
                (#[trigger] cells[b]).x as int,
                cells[b].y as int,
            ),
        0 <= k < cells.len(),
        0 <= c < 3,
        0 <= i < 64 * cells[k].dct_select.blocks(),
    ensures
        store.size(store.cell(cells[k].x as int, cells[k].y as int)) == 64
            * cells[k].dct_select.blocks(),
        block_of(cells[k]).coeffs[c * (64 * cells[k].dct_select.blocks()) + i] == after.channel(
            cells[k].x as int,
            cells[k].y as int,
            c,
        )[i],
{
    let cell = cells[k];
    let x = cell.x as int;
    let y = cell.y as int;
    let t = cell.dct_select;
    assert(decoded_cell_fits(p, cells[k]));
    lemma_made_fits(p, store);
    lemma_made_cell(store, p.block_info, x, y);
    lemma_updates_in_store(p, store, cells);
    lemma_slab_gains(store, after, all_updates(cells), x, y, c, i);
    lemma_own_sum(p, cells, cells.len(), k, c, i);
    assert(cells.take(cells.len() as int) =~= cells);
    store.lemma_channel(x, y, c);
    assert(store.channel(x, y, c)[i] == 0);
    let w = 8 * t.size().0;
    let dx = i % w;
    let dy = i / w;
    lemma_blocks(t);
    lemma_sides(t);
    assert(w * (8 * t.size().1) == 64 * t.blocks()) by (nonlinear_arith)
        requires
            w == 8 * t.size().0,
            t.blocks() == t.size().0 * t.size().1,
    ;
    vstd::arithmetic::div_mod::lemma_fundamental_div_mod(i, w);
    vstd::arithmetic::div_mod::lemma_mod_bound(i, w);
    assert(0 <= dy < 8 * t.size().1) by (nonlinear_arith)
        requires
            i == w * dy + dx,
            0 <= dx < w,
            0 <= i < w * (8 * t.size().1),
    ;
    assert(w * dy == dy * w) by (nonlinear_arith);
    lemma_block_matches_slab(p, cell, c, dx, dy);
    lemma_no_subsampling(p.jpeg_upsampling@, c);
}

/// Where decoding succeeds, the blocks that are handed out one at a time are the blocks of the
/// group, each once and in row order, and each channel of a block is what its slab in a fresh store
/// holds after the same coefficients were added to it.
pub proof fn lemma_direct_matches_store<R: SymbolSource>(
    p: HfCoeffParams,
    m: R::Model,
    store: CompactHfCoeffStore,
    after: CompactHfCoeffStore,
)
    requires
        p.wf(),
        plain(p),
        group_run::<R>(p, m).0 is Ok,
        store.wf(),
        made_for(store, p.block_info),
        store.data@ == no_coefficients(p.block_info),
        after.cell_start == store.cell_start,
        after.cell_size == store.cell_size,
        after.grid_width == store.grid_width,
        after.grid_height == store.grid_height,
        after.data@ == added(
            store.data@,
            all_updates(group_run::<R>(p, m).2),
            store.slots(),
        ),
    ensures
        ({
            let blocks = whole_blocks(group_run::<R>(p, m).2);
            let list = all_varblocks(p.block_info, no_shift());
            &&& blocks.len() == list.len()
            &&& forall|i: int|
                0 <= i < blocks.len() ==> varblock_of(#[trigger] blocks[i]) == list[i]
            &&& forall|i: int, c: int|
                #![trigger channel_coeffs(blocks[i], c)]
                0 <= i < blocks.len() && 0 <= c < 3 ==> channel_coeffs(blocks[i], c)
                    == after.channel(blocks[i].x as int, blocks[i].y as int, c)
        }),
{
    let cells = group_run::<R>(p, m).2;
    let blocks = whole_blocks(cells);
    lemma_group_listed::<R>(p, m);
    lemma_group_fits::<R>(p, m);
    lemma_all_whole(cells);
    let list = all_varblocks(p.block_info, no_shift());
    assert forall|i: int| 0 <= i < blocks.len() implies varblock_of(#[trigger] blocks[i])
        == list[i] by {
        assert(blocks[i] == block_of(cells[i]));
        assert(block_of_cell(cells[i]) == list[i]);
    }
    assert forall|i: int, c: int|
        #![trigger channel_coeffs(blocks[i], c)]
        0 <= i < blocks.len() && 0 <= c < 3 implies channel_coeffs(blocks[i], c) == after.channel(
        blocks[i].x as int,
        blocks[i].y as int,
        c,
    ) by {
        assert(blocks[i] == block_of(cells[i]));
        lemma_same_block(p, store, after, cells, i, c);
    }
}

proof fn lemma_same_block(
    p: HfCoeffParams,
    store: CompactHfCoeffStore,
    after: CompactHfCoeffStore,
    cells: Seq<CellModel>,
    k: int,
    c: int,
)
    requires
        plain(p),
        store.wf(),
        made_for(store, p.block_info),
        store.data@ == no_coefficients(p.block_info),
        after.cell_start == store.cell_start,
        after.cell_size == store.cell_size,
        after.grid_width == store.grid_width,
        after.grid_height == store.grid_height,
        after.data@ == added(store.data@, all_updates(cells), store.slots()),
        forall|j: int| 0 <= j < cells.len() ==> decoded_cell_fits(p, #[trigger] cells[j]),
        forall|a: int, b: int|
            0 <= a < b < cells.len() ==> precedes(
                (#[trigger] cells[a]).x as int,
                cells[a].y as int,
                (#[trigger] cells[b]).x as int,
                cells[b].y as int,
            ),
        0 <= k < cells.len(),
        0 <= c < 3,
    ensures
        channel_coeffs(block_of(cells[k]), c) == after.channel(
            cells[k].x as int,
            cells[k].y as int,
            c,
        ),
{
    let cell = cells[k];
    let size = 64 * cell.dct_select.blocks();
    let x = cell.x as int;
    let y = cell.y as int;
    let a = channel_coeffs(block_of(cell), c);
    let b = after.channel(x, y, c);
    lemma_blocks(cell.dct_select);
    assert((c + 1) * size == c * size + size && 0 <= c * size <= 2 * size) by (nonlinear_arith)
        requires
            0 <= c <= 2,
            size >= 0,
    ;
    assert(decoded_cell_fits(p, cells[k]));
    lemma_same_coefficient(p, store, after, cells, k, c, 0);
    store.lemma_channel(x, y, c);
    assert(after.size(after.cell(x, y)) == size);
    assert(after.data@.len() == store.data@.len());
    assert(a.len() == size && b.len() == size);
    assert forall|i: int| 0 <= i < size implies a[i] == b[i] by {
        lemma_same_coefficient(p, store, after, cells, k, c, i);
    }
    assert(a =~= b);
}

/// Where blocks do not overlap, a channel of a block in a fresh store and the rectangle of the block
/// on a fresh grid hold the same after the same coefficients were added to both.
pub proof fn lemma_grid_matches_store<R: SymbolSource>(
    p: HfCoeffParams,
    m: R::Model,
    store: CompactHfCoeffStore,
    after: CompactHfCoeffStore,
    grid: Grid<i32>,
    grid_after: Grid<i32>,
    c: int,
    x: int,
    y: int,
)
    requires
        p.wf(),
        plain(p),
        0 <= c < 3,
        blocks_apart(p, c),
        0 <= x < p.block_info.width,
        0 <= y < p.block_info.height,
        p.block_info.at(x, y) is Data,
        store.wf(),
        made_for(store, p.block_info),
        store.data@ == no_coefficients(p.block_info),
        after.cell_start == store.cell_start,
        after.cell_size == store.cell_size,
        after.grid_width == store.grid_width,
        after.grid_height == store.grid_height,
        after.data@ == added(
            store.data@,
            all_updates(group_run::<R>(p, m).2),
            store.slots(),
        ),
        grid.wf(),
        forall|k: int| 0 <= k < grid.data@.len() ==> #[trigger] grid.data@[k] == 0,
        forall|x2: int, y2: int|
            #![trigger p.block_info.at(x2, y2)]
            0 <= x2 < p.block_info.width && 0 <= y2 < p.block_info.height ==> (p.block_info.at(
                x2,
                y2,
            ) matches BlockInfo::Data { dct_select, .. } ==> (x2 + dct_select.size().0) * 8
                <= grid.width && (y2 + dct_select.size().1) * 8 <= grid.height),
        grid_after.width == grid.width,
        grid_after.height == grid.height,
        grid_after.data@ == added(
            grid.data@,
            all_updates(group_run::<R>(p, m).2),
            on_grid(c, grid.width as int),
        ),
    ensures
        ({
            let t = p.block_info.at(x, y)->Data_dct_select;
            after.channel(x, y, c) == rect_of(
                grid_after.data@,
                grid.width as int,
                8 * x,
                8 * y,
                8 * t.size().0,
                8 * t.size().1,
            )
        }),
{
    let cells = group_run::<R>(p, m).2;
    let t = p.block_info.at(x, y)->Data_dct_select;
    let w = 8 * t.size().0;
    let h = 8 * t.size().1;
    let width = grid.width as int;
    let us = all_updates(cells);
    lemma_group_fits::<R>(p, m);
    lemma_made_fits(p, store);
    lemma_made_cell(store, p.block_info, x, y);
    lemma_updates_in_store(p, store, cells);
    lemma_no_subsampling(p.jpeg_upsampling@, c);
    lemma_blocks(t);
    lemma_sides(t);
    store.lemma_channel(x, y, c);
    assert(w * h == 64 * t.blocks()) by (nonlinear_arith)
        requires
            w == 8 * t.size().0,
            h == 8 * t.size().1,
            t.blocks() == t.size().0 * t.size().1,
    ;
    assert forall|i: int|
        0 <= i < cells.len() && !p.skipped(c, cells[i].x as int, cells[i].y as int) implies (p.sx(
        c,
        #[trigger] cells[i].x as int,
    ) + cells[i].dct_select.size().0) * 8 <= width by {
        assert(decoded_cell_fits(p, cells[i]));
    }
    let slab = after.channel(x, y, c);
    let rect = rect_of(grid_after.data@, width, 8 * x, 8 * y, w, h);
    assert(after.size(after.cell(x, y)) == 64 * t.blocks());
    assert(after.data@.len() == store.data@.len());
    assert(slab.len() == w * h && rect.len() == w * h);
    assert forall|i: int| 0 <= i < w * h implies slab[i] == rect[i] by {
        let dx = i % w;
        let dy = i / w;
        vstd::arithmetic::div_mod::lemma_fundamental_div_mod(i, w);
        vstd::arithmetic::div_mod::lemma_mod_bound(i, w);
        assert(0 <= dy < h) by (nonlinear_arith)
            requires
                i == w * dy + dx,
                0 <= dx < w,
                0 <= i < w * h,
        ;
        assert(w * dy == dy * w) by (nonlinear_arith);
        lemma_slab_gains(store, after, us, x, y, c, i);
        assert(store.channel(x, y, c)[i] == 0);
        lemma_grid_matches_slab(p, cells, c, x, y, t, dx, dy, width);
        let at = (y * 8 + dy) * width + (x * 8 + dx);
        lemma_flat(x * 8 + dx, y * 8 + dy, width, grid.height as int);
        assert(grid_after.data@[at] == wrap32(0 + sum_at(us, on_grid(c, width), at)));
        assert((8 * y + dy) * width + (8 * x + dx) == at);
    }
    assert(slab =~= rect);
}

} // verus!
