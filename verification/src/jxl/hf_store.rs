//! Where decoded coefficients go: pixel grids, compact slabs per block, or one block at a time.
use crate::jxl::block::{lemma_blocks, BlockInfo, TransformType};
use crate::jxl::error::VardctError;
use crate::jxl::grid::{lemma_flat, Grid};
use crate::jxl::hf_coeff::{
    cells_run, channel_of, channel_run, channels_run, coeffs_run, group_run, order_fits, placed,
    zero_rows, BlockPlace, CellModel, HfCoeffParams, HfUpdate, CONTEXTS_PER_CLUSTER,
};
use crate::jxl::hf_decode::{cell_views, decode_group, HfCell};
use crate::jxl::symbols::SymbolSource;
use crate::vp8::arith::{wrap32, wrap_i32};
use vstd::prelude::*;

verus! {

// ---- sums of coefficients ----
/// Sum of the coefficients that go to position `p`.
pub open spec fn sum_at(
    updates: Seq<HfUpdate>,
    position: spec_fn(HfUpdate) -> int,
    p: int,
) -> int
    decreases updates.len(),
{
    if updates.len() == 0 {
        0
    } else {
        sum_at(updates.drop_last(), position, p) + if position(updates.last()) == p {
            updates.last().value as int
        } else {
            0
        }
    }
}

/// All coefficients of a group in decoding order.
pub open spec fn all_updates(cells: Seq<CellModel>) -> Seq<HfUpdate>
    decreases cells.len(),
{
    if cells.len() == 0 {
        Seq::empty()
    } else {
        all_updates(cells.drop_last()) + cells.last().updates
    }
}

/// Data after the coefficients were added, with 32 bits kept.
pub open spec fn added(
    data: Seq<i32>,
    updates: Seq<HfUpdate>,
    position: spec_fn(HfUpdate) -> int,
) -> Seq<i32> {
    Seq::new(data.len(), |p: int| wrap32(data[p] + sum_at(updates, position, p)) as i32)
}

proof fn lemma_wrap_add(a: int, b: int)
    ensures
        wrap32(wrap32(a) + b) == wrap32(a + b),
        -0x8000_0000 <= wrap32(a) <= 0x7fff_ffff,
{
}

/// Adding nothing changes nothing.
pub proof fn lemma_added_none(data: Seq<i32>, position: spec_fn(HfUpdate) -> int)
    ensures
        added(data, Seq::empty(), position) == data,
{
    assert(added(data, Seq::empty(), position) =~= data);
}

/// Adding one more coefficient changes one position.
pub proof fn lemma_added_push(
    data: Seq<i32>,
    updates: Seq<HfUpdate>,
    u: HfUpdate,
    position: spec_fn(HfUpdate) -> int,
    value: i32,
)
    requires
        0 <= position(u) < data.len(),
        value == wrap32(added(data, updates, position)[position(u)] + u.value),
    ensures
        added(data, updates.push(u), position) == added(data, updates, position).update(
            position(u),
            value,
        ),
{
    let more = updates.push(u);
    assert(more.drop_last() =~= updates);
    let a = added(data, more, position);
    let b = added(data, updates, position).update(position(u), value);
    assert forall|p: int| 0 <= p < data.len() implies a[p] == b[p] by {
        let s = data[p] + sum_at(updates, position, p);
        lemma_wrap_add(s, u.value as int);
    }
    assert(a =~= b);
}

/// Adds a coefficient, keeping 32 bits.
pub fn add_at(data: &mut Vec<i32>, i: usize, value: i32)
    requires
        i < old(data)@.len(),
    ensures
        final(data)@ == old(data)@.update(
            i as int,
            wrap32(old(data)@[i as int] + value) as i32,
        ),
{
    let sum: i32 = wrap_i32(data[i] as i64 + value as i64);
    data.set(i, sum);
}

// ---- decoded coefficients stay within their blocks ----
/// A coefficient lies within the block at a cell.
pub open spec fn update_fits(p: HfCoeffParams, u: HfUpdate, x: int, y: int, t: TransformType) -> bool {
    let c = u.channel as int;
    &&& c < 3
    &&& !p.skipped(c, x, y)
    &&& u.bx == p.sx(c, x)
    &&& u.by == p.sy(c, y)
    &&& u.dx < 8 * t.size().0
    &&& u.dy < 8 * t.size().1
    &&& u.block_width == 8 * t.size().0
}

pub open spec fn updates_fit(
    p: HfCoeffParams,
    updates: Seq<HfUpdate>,
    x: int,
    y: int,
    t: TransformType,
) -> bool {
    forall|i: int| 0 <= i < updates.len() ==> update_fits(p, #[trigger] updates[i], x, y, t)
}

/// A decoded block is one of the group's, and its coefficients lie within it.
pub open spec fn decoded_cell_fits(p: HfCoeffParams, cell: CellModel) -> bool {
    &&& cell.x < p.block_info.width
    &&& cell.y < p.block_info.height
    &&& p.block_info.at(cell.x as int, cell.y as int) == (BlockInfo::Data {
        dct_select: cell.dct_select,
        hf_mul: cell.hf_mul,
    })
    &&& updates_fit(p, cell.updates, cell.x as int, cell.y as int, cell.dct_select)
}

proof fn lemma_coeffs_fit<R: SymbolSource>(
    p: HfCoeffParams,
    clusters: Seq<u8>,
    x: int,
    y: int,
    c: int,
    t: TransformType,
    idx: int,
    nonzeros: int,
    prev: int,
    m: R::Model,
)
    requires
        0 <= c < 3,
        !p.skipped(c, x, y),
        0 <= x < p.block_info.width,
        0 <= y < p.block_info.height,
        order_fits(p.hf_pass.order(t.order(), c), t),
        idx >= 0,
    ensures
        updates_fit(
            p,
            coeffs_run::<R>(
                clusters,
                p.hf_pass.order(t.order(), c),
                BlockPlace { channel: c, bx: p.sx(c, x), by: p.sy(c, y), t },
                p.coeff_shift as int,
                idx,
                nonzeros,
                prev,
                m,
            ).2,
            x,
            y,
            t,
        ),
    decreases p.hf_pass.order(t.order(), c).len() - idx,
{
    let order = p.hf_pass.order(t.order(), c);
    lemma_blocks(t);
    if idx < order.len() - t.blocks() {
        let ctx = crate::jxl::hf_coeff::coeff_context(nonzeros, idx, t.blocks(), prev);
        let (r, m2) = R::symbol(m, clusters[ctx]);
        lemma_coeffs_fit::<R>(p, clusters, x, y, c, t, idx + 1, nonzeros, 0, m2);
        lemma_coeffs_fit::<R>(p, clusters, x, y, c, t, idx + 1, nonzeros - 1, 1, m2);
        let d = placed(order[t.blocks() + idx], t.transposed());
        assert(d.0 < 8 * t.size().0 && d.1 < 8 * t.size().1);
    }
}

proof fn lemma_channels_fit<R: SymbolSource>(
    p: HfCoeffParams,
    map: Seq<u8>,
    t: TransformType,
    qf: i32,
    x: int,
    y: int,
    k: int,
    m: R::Model,
    rows: Seq<Seq<u32>>,
)
    requires
        0 <= k,
        0 <= x < p.block_info.width,
        0 <= y < p.block_info.height,
        forall|c: int| 0 <= c < 3 ==> p.channel_fits(c, x, y, t),
    ensures
        updates_fit(p, channels_run::<R>(p, map, t, qf, x, y, k, m, rows).0.2, x, y, t),
    decreases 3 - k,
{
    if k < 3 {
        let c = channel_of(k);
        assert(p.channel_fits(c, x, y, t));
        let (run, row) = channel_run::<R>(p, map, t, qf, x, y, k, m, rows[c]);
        assert(updates_fit(p, run.2, x, y, t)) by {
            reveal(channel_run);
            if !p.skipped(c, x, y) {
                let cluster = crate::jxl::hf_coeff::block_cluster(p, t, qf, x, y, k);
                let base = cluster * crate::jxl::hf_coeff::COEFF_CONTEXTS
                    + crate::jxl::hf_coeff::NONZERO_CONTEXTS * p.clusters();
                let ctx = cluster + crate::jxl::hf_coeff::count_class(
                    crate::jxl::hf_coeff::predicted(rows[c], p.sx(c, x), p.sy(c, y)),
                ) * p.clusters();
                let (r, m2) = R::symbol(m, map[ctx]);
                if r is Ok {
                    let n = r->Ok_0 as int;
                    lemma_coeffs_fit::<R>(
                        p,
                        map.subrange(base, base + crate::jxl::hf_coeff::COEFF_CONTEXTS),
                        x,
                        y,
                        c,
                        t,
                        0,
                        n,
                        crate::jxl::hf_coeff::few_nonzeros(n, t.blocks()),
                        m2,
                    );
                }
            }
        }
        let rows2 = rows.update(c, row);
        lemma_channels_fit::<R>(p, map, t, qf, x, y, k + 1, run.1, rows2);
    }
}

proof fn lemma_cells_fit<R: SymbolSource>(
    p: HfCoeffParams,
    map: Seq<u8>,
    x: int,
    y: int,
    m: R::Model,
    rows: Seq<Seq<u32>>,
)
    requires
        p.wf(),
        0 <= x,
        0 <= y,
    ensures
        ({
            let cells = cells_run::<R>(p, map, x, y, m, rows).2;
            forall|i: int| 0 <= i < cells.len() ==> decoded_cell_fits(p, #[trigger] cells[i])
        }),
    decreases p.block_info.height - y, p.block_info.width - x,
{
    if y < p.block_info.height {
        if x >= p.block_info.width {
            lemma_cells_fit::<R>(p, map, 0, y + 1, m, rows);
            assert(cells_run::<R>(p, map, x, y, m, rows) == cells_run::<R>(
                p,
                map,
                0,
                y + 1,
                m,
                rows,
            ));
        } else {
            assert(p.cell_fits(x, y));
            match p.block_info.at(x, y) {
                BlockInfo::Data { dct_select, hf_mul } => {
                    lemma_channels_fit::<R>(p, map, dct_select, hf_mul, x, y, 0, m, rows);
                    let (run, rows2) = channels_run::<R>(
                        p,
                        map,
                        dct_select,
                        hf_mul,
                        x,
                        y,
                        0,
                        m,
                        rows,
                    );
                    lemma_cells_fit::<R>(p, map, x + 1, y, run.1, rows2);
                    let cell = CellModel {
                        x: x as usize,
                        y: y as usize,
                        dct_select,
                        hf_mul,
                        complete: run.0 is Ok,
                        updates: run.2,
                    };
                    assert(decoded_cell_fits(p, cell));
                    let rest = cells_run::<R>(p, map, x + 1, y, run.1, rows2).2;
                    let cells = cells_run::<R>(p, map, x, y, m, rows).2;
                    assert forall|i: int| 0 <= i < cells.len() implies decoded_cell_fits(
                        p,
                        #[trigger] cells[i],
                    ) by {
                        if i > 0 {
                            assert(cells[i] == rest[i - 1]);
                        }
                    }
                },
                _ => {
                    lemma_cells_fit::<R>(p, map, x + 1, y, m, rows);
                    assert(cells_run::<R>(p, map, x, y, m, rows) == cells_run::<R>(
                        p,
                        map,
                        x + 1,
                        y,
                        m,
                        rows,
                    ));
                },
            }
        }
    }
}

/// Every coefficient that is decoded lies within its block.
pub proof fn lemma_group_fits<R: SymbolSource>(p: HfCoeffParams, m: R::Model)
    requires
        p.wf(),
    ensures
        ({
            let cells = group_run::<R>(p, m).2;
            forall|i: int| 0 <= i < cells.len() ==> decoded_cell_fits(p, #[trigger] cells[i])
        }),
{
    let (r1, m1) = R::bits(m, crate::jxl::hf_coeff::bits_below(p.num_hf_presets as int, 0));
    if r1 is Ok {
        let preset = r1->Ok_0;
        let (r2, m2) = R::begun(m1);
        let size = CONTEXTS_PER_CLUSTER * p.clusters();
        let map = p.hf_pass.cluster_map@.subrange(size * preset, size * preset + size);
        lemma_cells_fit::<R>(p, map, 0, 0, m2, zero_rows(p));
    }
}

// ---- pixel grids ----
/// Position of a coefficient in the grid of its channel.
pub open spec fn grid_position(u: HfUpdate, c: int, width: int) -> int {
    if u.channel == c {
        (u.by * 8 + u.dy) * width + (u.bx * 8 + u.dx)
    } else {
        -1
    }
}

pub open spec fn on_grid(c: int, width: int) -> spec_fn(HfUpdate) -> int {
    |u: HfUpdate| grid_position(u, c, width)
}

/// The blocks of a group lie within the grids of their channels.
pub open spec fn grids_fit(p: HfCoeffParams, grids: Seq<Grid<i32>>) -> bool {
    &&& grids.len() == 3
    &&& forall|c: int| 0 <= c < 3 ==> (#[trigger] grids[c]).wf()
    &&& forall|x: int, y: int, c: int|
        #![trigger p.block_info.at(x, y), grids[c]]
        0 <= x < p.block_info.width && 0 <= y < p.block_info.height && 0 <= c < 3
            && !p.skipped(c, x, y) ==> (p.block_info.at(x, y) matches BlockInfo::Data {
            dct_select,
            ..
        } ==> (p.sx(c, x) + dct_select.size().0) * 8 <= grids[c].width && (p.sy(c, y)
            + dct_select.size().1) * 8 <= grids[c].height)
}

/// The grids after coefficients were added.
pub open spec fn grids_added(
    before: Seq<Grid<i32>>,
    after: Seq<Grid<i32>>,
    updates: Seq<HfUpdate>,
) -> bool {
    &&& after.len() == before.len()
    &&& forall|c: int|
        0 <= c < before.len() ==> {
            &&& (#[trigger] after[c]).width == before[c].width
            &&& after[c].height == before[c].height
            &&& after[c].data@ == added(
                before[c].data@,
                updates,
                on_grid(c, before[c].width as int),
            )
        }
}

proof fn lemma_other_channel(
    data: Seq<i32>,
    updates: Seq<HfUpdate>,
    u: HfUpdate,
    c: int,
    width: int,
)
    requires
        u.channel != c,
    ensures
        added(data, updates.push(u), on_grid(c, width)) == added(
            data,
            updates,
            on_grid(c, width),
        ),
{
    assert(updates.push(u).drop_last() =~= updates);
    assert(added(data, updates.push(u), on_grid(c, width)) =~= added(
        data,
        updates,
        on_grid(c, width),
    ));
}

/// Adds the coefficients of a block to the grids.
fn add_to_grids(
    params: &HfCoeffParams<'_>,
    grids: &mut Vec<Grid<i32>>,
    cell: &HfCell,
    Ghost(start): Ghost<Seq<Grid<i32>>>,
    Ghost(done): Ghost<Seq<HfUpdate>>,
)
    requires
        grids_fit(*params, start),
        grids_added(start, old(grids)@, done),
        decoded_cell_fits(*params, cell@),
    ensures
        grids_added(start, final(grids)@, done + cell.updates@),
{
    let ghost us = cell.updates@;
    let mut i: usize = 0;
    assert(done + us.take(0) =~= done);
    while i < cell.updates.len()
        invariant
            i <= us.len(),
            us == cell.updates@,
            grids_fit(*params, start),
            grids_added(start, grids@, done + us.take(i as int)),
            decoded_cell_fits(*params, cell@),
        decreases us.len() - i,
    {
        let u: HfUpdate = cell.updates[i];
        let ghost before = grids@;
        let ghost seen = done + us.take(i as int);
        assert(update_fits(*params, us[i as int], cell.x as int, cell.y as int, cell.dct_select));
        let c: usize = u.channel;
        assert(params.block_info.at(cell.x as int, cell.y as int) is Data);
        assert(start[c as int].wf() && grids@[c as int].width == start[c as int].width);
        let x: usize = u.bx * 8 + u.dx;
        let y: usize = u.by * 8 + u.dy;
        let old_value: i32 = grids[c].get(x, y);
        let sum: i32 = wrap_i32(old_value as i64 + u.value as i64);
        grids[c].set(x, y, sum);
        proof {
            let w = start[c as int].width as int;
            lemma_flat(x as int, y as int, w, start[c as int].height as int);
            lemma_added_push(start[c as int].data@, seen, u, on_grid(c as int, w), sum);
            assert(done + us.take(i + 1) =~= seen.push(u));
            assert forall|d: int| 0 <= d < start.len() implies {
                &&& (#[trigger] grids@[d]).width == start[d].width
                &&& grids@[d].height == start[d].height
                &&& grids@[d].data@ == added(
                    start[d].data@,
                    seen.push(u),
                    on_grid(d, start[d].width as int),
                )
            } by {
                assert(before[d].width == start[d].width);
                if d != c {
                    lemma_other_channel(start[d].data@, seen, u, d, start[d].width as int);
                }
            }
        }
        i = i + 1;
    }
    assert(us.take(us.len() as int) =~= us);
}

/// Decodes the coefficients of a group and adds them to the grids of the channels. What was
/// decoded before an error is kept.
pub fn write_hf_coeff<R: SymbolSource>(
    bitstream: &mut R,
    params: HfCoeffParams<'_>,
    hf_coeff_output: &mut Vec<Grid<i32>>,
) -> (r: Result<(), VardctError>)
    requires
        params.wf(),
        grids_fit(params, old(hf_coeff_output)@),
    ensures
        ({
            let run = group_run::<R>(params, old(bitstream).model());
            &&& r == run.0
            &&& final(bitstream).model() == run.1
            &&& grids_added(
                old(hf_coeff_output)@,
                final(hf_coeff_output)@,
                all_updates(run.2),
            )
        }),
{
    let ghost m = bitstream.model();
    let (r, cells) = decode_group(bitstream, &params);
    let ghost views = cell_views(cells@);
    let ghost start = hf_coeff_output@;
    proof {
        lemma_group_fits::<R>(params, m);
        assert forall|c: int| 0 <= c < start.len() implies #[trigger] start[c].data@ == added(
            start[c].data@,
            Seq::empty(),
            on_grid(c, start[c].width as int),
        ) by {
            lemma_added_none(start[c].data@, on_grid(c, start[c].width as int));
        }
        assert(all_updates(views.take(0)) =~= Seq::empty());
    }
    let mut i: usize = 0;
    while i < cells.len()
        invariant
            i <= cells@.len(),
            views == cell_views(cells@),
            grids_fit(params, start),
            grids_added(start, hf_coeff_output@, all_updates(views.take(i as int))),
            forall|j: int| 0 <= j < views.len() ==> decoded_cell_fits(params, #[trigger] views[j]),
        decreases cells@.len() - i,
    {
        let ghost done = all_updates(views.take(i as int));
        assert(views[i as int] == cells@[i as int]@);
        add_to_grids(&params, hf_coeff_output, &cells[i], Ghost(start), Ghost(done));
        assert(views.take(i + 1).drop_last() =~= views.take(i as int));
        i = i + 1;
    }
    assert(views.take(i as int) =~= views);
    r
}

} // verus!
