//! Compact storage of coefficients: three slabs for every block.
use crate::jxl::block::{lemma_blocks, BlockInfo, TransformType};
use crate::jxl::error::VardctError;
use crate::jxl::grid::{lemma_flat, lemma_flat_injective, SharedSubgrid};
use crate::jxl::hf_coeff::{group_run, CellModel, HfCoeffParams, HfUpdate};
use crate::jxl::hf_decode::{cell_views, decode_group, HfCell};
use crate::jxl::hf_store::{
    add_at, added, all_updates, decoded_cell_fits, lemma_added_none, lemma_added_push,
    lemma_group_fits, sum_at, update_fits,
};
use crate::jxl::symbols::SymbolSource;
use crate::vp8::arith::wrap32;
use vstd::prelude::*;

verus! {

/// Coefficients of the blocks of a group, three slabs for each, one per channel.
#[derive(Debug, Clone)]
pub struct CompactHfCoeffStore {
    pub data: Vec<i32>,
    /// Where the slabs of the block at a cell start.
    pub cell_start: Vec<u32>,
    /// Coefficients per slab; zero where no block starts.
    pub cell_size: Vec<u32>,
    pub grid_width: usize,
    pub grid_height: usize,
}

/// Coefficients per channel of the block at cell `i`; zero where no block starts.
pub open spec fn slab_size(info: BlockInfo) -> int {
    match info {
        BlockInfo::Data { dct_select, .. } => 64 * dct_select.blocks(),
        _ => 0,
    }
}

pub open spec fn info_at(grid: SharedSubgrid<BlockInfo>, i: int) -> BlockInfo {
    grid.at(i % grid.width as int, i / grid.width as int)
}

/// Coefficients of all blocks before cell `i`.
pub open spec fn slabs_before(grid: SharedSubgrid<BlockInfo>, i: int) -> int
    decreases i,
{
    if i <= 0 {
        0
    } else {
        slabs_before(grid, i - 1) + 3 * slab_size(info_at(grid, i - 1))
    }
}

pub proof fn lemma_slab_size(info: BlockInfo)
    ensures
        0 <= slab_size(info) <= 65536,
        info is Data == (slab_size(info) > 0),
{
    match info {
        BlockInfo::Data { dct_select, .. } => {
            lemma_blocks(dct_select);
        },
        _ => {},
    }
}

proof fn lemma_slabs_mono(grid: SharedSubgrid<BlockInfo>, i: int, j: int)
    requires
        0 <= i <= j,
    ensures
        0 <= slabs_before(grid, i) <= slabs_before(grid, j),
    decreases j,
{
    if j > 0 {
        lemma_slab_size(info_at(grid, j - 1));
        if i < j {
            lemma_slabs_mono(grid, i, j - 1);
        } else {
            lemma_slabs_mono(grid, j - 1, j - 1);
        }
    }
}

impl CompactHfCoeffStore {
    pub open spec fn start(&self, i: int) -> int {
        self.cell_start@[i] as int
    }

    pub open spec fn size(&self, i: int) -> int {
        self.cell_size@[i] as int
    }

    /// Every cell has an entry, and the slabs of different blocks lie in the data one behind the
    /// other.
    pub open spec fn wf(&self) -> bool {
        &&& self.cell_start@.len() == self.grid_width * self.grid_height
        &&& self.cell_size@.len() == self.cell_start@.len()
        &&& forall|i: int|
            0 <= i < self.cell_size@.len() && #[trigger] self.size(i) != 0 ==> self.start(i) + 3
                * self.size(i) <= self.data@.len()
        &&& forall|i: int, j: int|
            #![trigger self.size(i), self.size(j)]
            0 <= i < j < self.cell_size@.len() && self.size(i) != 0 && self.size(j) != 0
                ==> self.start(i) + 3 * self.size(i) <= self.start(j)
    }

    /// The cell at column `bx` of row `by`.
    pub open spec fn cell(&self, bx: int, by: int) -> int {
        by * self.grid_width + bx
    }

    /// The coefficients of a channel of the block at a cell.
    pub open spec fn channel(&self, bx: int, by: int, c: int) -> Seq<i32> {
        let i = self.cell(bx, by);
        self.data@.subrange(
            self.start(i) + c * self.size(i),
            self.start(i) + (c + 1) * self.size(i),
        )
    }

    /// Where an update of a block goes.
    pub open spec fn slot(&self, u: HfUpdate) -> int {
        let i = self.cell(u.bx as int, u.by as int);
        self.start(i) + u.channel * self.size(i) + u.dy * u.block_width + u.dx
    }

    pub open spec fn slots(&self) -> spec_fn(HfUpdate) -> int {
        |u: HfUpdate| self.slot(u)
    }

    /// The entry of cell `i`: the size of its slabs, and the coefficients before them.
    pub open spec fn has_cell(&self, block_info: SharedSubgrid<BlockInfo>, i: int) -> bool {
        &&& self.size(i) == slab_size(info_at(block_info, i))
        &&& self.start(i) == if info_at(block_info, i) is Data {
            slabs_before(block_info, i)
        } else {
            0
        }
    }

    /// Makes room for the blocks of a group.
    pub fn new(block_info: &SharedSubgrid<'_, BlockInfo>) -> (r: Self)
        requires
            block_info.wf(),
            block_info.width * block_info.height <= usize::MAX,
            slabs_before(*block_info, block_info.width * block_info.height) <= usize::MAX,
            forall|i: int|
                0 <= i < block_info.width * block_info.height ==> info_at(*block_info, i) is Data
                    ==> #[trigger] slabs_before(*block_info, i) <= u32::MAX,
        ensures
            r.wf(),
            r.grid_width == block_info.width,
            r.grid_height == block_info.height,
            r.data@ == Seq::new(
                slabs_before(*block_info, block_info.width * block_info.height) as nat,
                |k: int| 0i32,
            ),
            forall|i: int|
                0 <= i < block_info.width * block_info.height ==> r.has_cell(*block_info, i),
    {
        let width: usize = block_info.width;
        let height: usize = block_info.height;
        let count: usize = width * height;
        let mut cell_start: Vec<u32> = Vec::new();
        let mut cell_size: Vec<u32> = Vec::new();
        let mut total: usize = 0;
        let mut by: usize = 0;
        let mut bx: usize = 0;
        let ghost grid = *block_info;
        while by < height
            invariant
                block_info.wf(),
                grid == *block_info,
                width == block_info.width,
                height == block_info.height,
                count == width * height,
                bx <= width,
                by <= height,
                by == height ==> bx == 0,
                cell_start@.len() == by * width + bx,
                cell_size@.len() == by * width + bx,
                total == slabs_before(grid, by * width + bx),
                slabs_before(grid, width * height) <= usize::MAX,
                forall|i: int|
                    0 <= i < width * height ==> info_at(grid, i) is Data
                        ==> #[trigger] slabs_before(grid, i) <= u32::MAX,
                forall|i: int|
                    0 <= i < cell_start@.len() ==> #[trigger] cell_size@[i] == slab_size(
                        info_at(grid, i),
                    ) && cell_start@[i] == (if info_at(grid, i) is Data {
                        slabs_before(grid, i)
                    } else {
                        0
                    }),
            decreases height - by, width - bx,
        {
            if bx >= width {
                assert((by + 1) * width == by * width + width) by (nonlinear_arith);
                bx = 0;
                by = by + 1;
            } else {
                let ghost flat = by * width + bx;
                proof {
                    lemma_flat(bx as int, by as int, width as int, height as int);
                    crate::vp8::planes::lemma_row_col(by as int, bx as int, width as int);
                    assert(info_at(grid, flat) == grid.at(bx as int, by as int));
                    lemma_slab_size(info_at(grid, flat));
                    lemma_slabs_mono(grid, flat + 1, width * height);
                }
                match block_info.get(bx, by) {
                    BlockInfo::Data { dct_select, .. } => {
                        let (blocks, log) = dct_select.block_count();
                        let size: usize = blocks as usize * 64;
                        assert(slabs_before(grid, flat) <= u32::MAX);
                        cell_start.push(total as u32);
                        cell_size.push(size as u32);
                        total = total + size * 3;
                    },
                    _ => {
                        cell_start.push(0);
                        cell_size.push(0);
                    },
                }
                bx = bx + 1;
            }
        }
        assert(by * width + bx == width * height) by (nonlinear_arith)
            requires
                by == height,
                bx == 0,
        ;
        let r = CompactHfCoeffStore {
            data: vec![0; total],
            cell_start,
            cell_size,
            grid_width: width,
            grid_height: height,
        };
        proof {
            assert forall|i: int|
                0 <= i < r.cell_size@.len() && #[trigger] r.size(i) != 0 implies r.start(i) + 3
                * r.size(i) <= r.data@.len() by {
                lemma_slab_size(info_at(grid, i));
                assert(r.cell_size@[i] == slab_size(info_at(grid, i)));
                lemma_slabs_mono(grid, i + 1, width * height);
            }
            assert forall|i: int, j: int|
                #![trigger r.size(i), r.size(j)]
                0 <= i < j < r.cell_size@.len() && r.size(i) != 0 && r.size(j)
                    != 0 implies r.start(i) + 3 * r.size(i) <= r.start(j) by {
                lemma_slab_size(info_at(grid, i));
                lemma_slab_size(info_at(grid, j));
                assert(r.cell_size@[i] == slab_size(info_at(grid, i)));
                assert(r.cell_size@[j] == slab_size(info_at(grid, j)));
                lemma_slabs_mono(grid, i + 1, j);
            }
            assert forall|i: int| 0 <= i < block_info.width * block_info.height implies r.has_cell(
                *block_info,
                i,
            ) by {
                assert(r.cell_size@[i] == slab_size(info_at(*block_info, i)));
            }
        }
        r
    }

    pub proof fn lemma_channel(&self, bx: int, by: int, c: int)
        requires
            self.wf(),
            0 <= bx < self.grid_width,
            0 <= by < self.grid_height,
            0 <= c < 3,
        ensures
            0 <= self.cell(bx, by) < self.cell_size@.len(),
            self.size(self.cell(bx, by)) != 0 ==> 0 <= c * self.size(self.cell(bx, by)) && self.start(
                self.cell(bx, by),
            ) + (c + 1) * self.size(self.cell(bx, by)) <= self.data@.len(),
            (c + 1) * self.size(self.cell(bx, by)) == c * self.size(self.cell(bx, by)) + self.size(
                self.cell(bx, by),
            ),
    {
        lemma_flat(bx, by, self.grid_width as int, self.grid_height as int);
        let s = self.size(self.cell(bx, by));
        assert((c + 1) * s == c * s + s) by (nonlinear_arith);
        assert(0 <= c * s <= 2 * s) by (nonlinear_arith)
            requires
                0 <= c <= 2,
                s >= 0,
        ;
    }

    /// The coefficients of a channel of the block at a cell.
    pub fn get_channel(&self, bx: usize, by: usize, c: usize) -> (r: &[i32])
        requires
            self.wf(),
            bx < self.grid_width,
            by < self.grid_height,
            c < 3,
            self.size(self.cell(bx as int, by as int)) != 0,
        ensures
            r@ == self.channel(bx as int, by as int, c as int),
    {
        proof {
            self.lemma_channel(bx as int, by as int, c as int);
        }
        let cells: usize = self.cell_size.len();
        let total: usize = self.data.len();
        assert(by * self.grid_width >= 0) by (nonlinear_arith);
        let flat: usize = by * self.grid_width + bx;
        let start: usize = self.cell_start[flat] as usize;
        let size: usize = self.cell_size[flat] as usize;
        assert(self.size(flat as int) == size);
        assert(self.start(flat as int) == start);
        vstd::slice::slice_subrange(
            self.data.as_slice(),
            start + c * size,
            start + c * size + size,
        )
    }

    /// Like `get_channel`, with an empty slice where no block starts.
    pub fn get_channel_unchecked(&self, bx: usize, by: usize, c: usize) -> (r: &[i32])
        requires
            self.wf(),
            bx < self.grid_width,
            by < self.grid_height,
            c < 3,
            self.start(self.cell(bx as int, by as int)) <= self.data@.len(),
        ensures
            r@ == self.channel(bx as int, by as int, c as int),
    {
        proof {
            self.lemma_channel(bx as int, by as int, c as int);
        }
        let cells: usize = self.cell_size.len();
        let total: usize = self.data.len();
        assert(by * self.grid_width >= 0) by (nonlinear_arith);
        let flat: usize = by * self.grid_width + bx;
        let start: usize = self.cell_start[flat] as usize;
        let size: usize = self.cell_size[flat] as usize;
        assert(self.size(flat as int) == size);
        assert(self.start(flat as int) == start);
        if size == 0 {
            assert(c * size == 0) by (nonlinear_arith)
                requires
                    size == 0,
            ;
        }
        vstd::slice::slice_subrange(
            self.data.as_slice(),
            start + c * size,
            start + c * size + size,
        )
    }

    /// The coefficients of a channel of the block at a cell, to be changed. Nothing else changes.
    pub fn get_channel_mut(&mut self, bx: usize, by: usize, c: usize) -> (r: &mut [i32])
        requires
            old(self).wf(),
            bx < old(self).grid_width,
            by < old(self).grid_height,
            c < 3,
            old(self).size(old(self).cell(bx as int, by as int)) != 0,
        ensures
            r@ == old(self).channel(bx as int, by as int, c as int),
            final(self).cell_start == old(self).cell_start,
            final(self).cell_size == old(self).cell_size,
            final(self).grid_width == old(self).grid_width,
            final(self).grid_height == old(self).grid_height,
            ({
                let i = old(self).cell(bx as int, by as int);
                let a = old(self).start(i) + c * old(self).size(i);
                let b = old(self).start(i) + (c + 1) * old(self).size(i);
                final(self).data@ == old(self).data@.take(a) + (final(r)@ + old(self).data@.skip(
                    b,
                ))
            }),
    {
        proof {
            self.lemma_channel(bx as int, by as int, c as int);
        }
        let cells: usize = self.cell_size.len();
        let total: usize = self.data.len();
        assert(by * self.grid_width >= 0) by (nonlinear_arith);
        let flat: usize = by * self.grid_width + bx;
        let start: usize = self.cell_start[flat] as usize;
        let size: usize = self.cell_size[flat] as usize;
        assert(self.size(flat as int) == size);
        assert(self.start(flat as int) == start);
        let ghost before = self.data@;
        let (head, rest) = self.data.as_mut_slice().split_at_mut(start + c * size);
        let (slab, tail) = rest.split_at_mut(size);
        proof {
            assert(head@ =~= before.take(start + c * size));
            assert(tail@ =~= before.skip(start + c * size + size));
        }
        slab
    }
}

/// The store has room for every block of a group.
pub open spec fn store_fits(p: HfCoeffParams, store: CompactHfCoeffStore) -> bool {
    &&& store.wf()
    &&& forall|x: int, y: int, c: int|
        #![trigger p.block_info.at(x, y), p.sx(c, x)]
        0 <= x < p.block_info.width && 0 <= y < p.block_info.height && 0 <= c < 3
            && !p.skipped(c, x, y) ==> (p.block_info.at(x, y) matches BlockInfo::Data {
            dct_select,
            ..
        } ==> p.sx(c, x) < store.grid_width && p.sy(c, y) < store.grid_height && store.size(
            store.cell(p.sx(c, x), p.sy(c, y)),
        ) >= 64 * dct_select.blocks())
}

/// An update lies within the slab of its channel and block.
pub open spec fn in_store(store: CompactHfCoeffStore, u: HfUpdate) -> bool {
    &&& u.channel < 3
    &&& u.bx < store.grid_width
    &&& u.by < store.grid_height
    &&& u.dy * u.block_width + u.dx < store.size(store.cell(u.bx as int, u.by as int))
}

/// A coefficient of a block of the group has its place in the store.
pub proof fn lemma_in_store(
    p: HfCoeffParams,
    store: CompactHfCoeffStore,
    u: HfUpdate,
    x: int,
    y: int,
    t: TransformType,
)
    requires
        store_fits(p, store),
        0 <= x < p.block_info.width,
        0 <= y < p.block_info.height,
        p.block_info.at(x, y) matches BlockInfo::Data { dct_select, .. } && dct_select == t,
        update_fits(p, u, x, y, t),
    ensures
        in_store(store, u),
{
    let c = u.channel as int;
    assert(p.sx(c, x) < store.grid_width);
    let w = t.size().0;
    let h = t.size().1;
    lemma_flat(u.dx as int, u.dy as int, 8 * w, 8 * h);
    assert((8 * w) * (8 * h) == 64 * (w * h)) by (nonlinear_arith);
}

proof fn lemma_slot(store: CompactHfCoeffStore, u: HfUpdate)
    requires
        store.wf(),
        in_store(store, u),
    ensures
        0 <= u.dy * u.block_width,
        ({
            let i = store.cell(u.bx as int, u.by as int);
            &&& 0 <= i < store.cell_size@.len()
            &&& store.size(i) != 0
            &&& 0 <= u.channel * store.size(i) <= 2 * store.size(i)
            &&& store.start(i) <= store.slot(u) < store.start(i) + 3 * store.size(i)
            &&& store.slot(u) < store.data@.len()
        }),
{
    let i = store.cell(u.bx as int, u.by as int);
    lemma_flat(u.bx as int, u.by as int, store.grid_width as int, store.grid_height as int);
    assert(u.dy * u.block_width >= 0) by (nonlinear_arith);
    let c = u.channel as int;
    let s = store.size(i);
    assert(0 <= c * s <= 2 * s) by (nonlinear_arith)
        requires
            0 <= c <= 2,
            s >= 0,
    ;
}

/// Adds the coefficients of a block to the store.
fn add_to_store(
    params: &HfCoeffParams<'_>,
    store: &mut CompactHfCoeffStore,
    cell: &HfCell,
    Ghost(start): Ghost<CompactHfCoeffStore>,
    Ghost(done): Ghost<Seq<HfUpdate>>,
)
    requires
        store_fits(*params, start),
        decoded_cell_fits(*params, cell@),
        old(store).cell_start == start.cell_start,
        old(store).cell_size == start.cell_size,
        old(store).grid_width == start.grid_width,
        old(store).grid_height == start.grid_height,
        old(store).data@ == added(start.data@, done, start.slots()),
    ensures
        final(store).cell_start == start.cell_start,
        final(store).cell_size == start.cell_size,
        final(store).grid_width == start.grid_width,
        final(store).grid_height == start.grid_height,
        final(store).data@ == added(start.data@, done + cell.updates@, start.slots()),
{
    let ghost us = cell.updates@;
    let mut i: usize = 0;
    assert(done + us.take(0) =~= done);
    while i < cell.updates.len()
        invariant
            i <= us.len(),
            us == cell.updates@,
            store_fits(*params, start),
            decoded_cell_fits(*params, cell@),
            store.cell_start == start.cell_start,
            store.cell_size == start.cell_size,
            store.grid_width == start.grid_width,
            store.grid_height == start.grid_height,
            store.data@ == added(start.data@, done + us.take(i as int), start.slots()),
        decreases us.len() - i,
    {
        let u: HfUpdate = cell.updates[i];
        let ghost seen = done + us.take(i as int);
        proof {
            assert(update_fits(
                *params,
                us[i as int],
                cell.x as int,
                cell.y as int,
                cell.dct_select,
            ));
            lemma_in_store(*params, start, u, cell.x as int, cell.y as int, cell.dct_select);
            lemma_slot(start, u);
            assert(u.by * start.grid_width >= 0) by (nonlinear_arith);
        }
        let cells: usize = store.cell_size.len();
        let total: usize = store.data.len();
        let flat: usize = u.by * store.grid_width + u.bx;
        let first: usize = store.cell_start[flat] as usize;
        let size: usize = store.cell_size[flat] as usize;
        assert(start.size(flat as int) == size && start.start(flat as int) == first);
        let at: usize = first + u.channel * size + (u.dy * u.block_width + u.dx);
        assert(at == start.slot(u));
        let ghost value = wrap32(store.data@[at as int] + u.value) as i32;
        add_at(&mut store.data, at, u.value);
        proof {
            lemma_added_push(start.data@, seen, u, start.slots(), value);
            assert(done + us.take(i + 1) =~= seen.push(u));
        }
        i = i + 1;
    }
    assert(us.take(us.len() as int) =~= us);
}

/// Decodes the coefficients of a group and adds them to the slabs of their blocks. What was
/// decoded before an error is kept.
pub fn write_hf_coeff_compact<R: SymbolSource>(
    bitstream: &mut R,
    params: HfCoeffParams<'_>,
    compact_store: &mut CompactHfCoeffStore,
) -> (r: Result<(), VardctError>)
    requires
        params.wf(),
        store_fits(params, *old(compact_store)),
    ensures
        final(compact_store).cell_start == old(compact_store).cell_start,
        final(compact_store).cell_size == old(compact_store).cell_size,
        final(compact_store).grid_width == old(compact_store).grid_width,
        final(compact_store).grid_height == old(compact_store).grid_height,
        ({
            let run = group_run::<R>(params, old(bitstream).model());
            &&& r == run.0
            &&& final(bitstream).model() == run.1
            &&& final(compact_store).data@ == added(
                old(compact_store).data@,
                all_updates(run.2),
                old(compact_store).slots(),
            )
        }),
{
    let ghost m = bitstream.model();
    let (r, cells) = decode_group(bitstream, &params);
    let ghost views = cell_views(cells@);
    let ghost start = *compact_store;
    proof {
        lemma_group_fits::<R>(params, m);
        lemma_added_none(start.data@, start.slots());
        assert(all_updates(views.take(0)) =~= Seq::empty());
    }
    let mut i: usize = 0;
    while i < cells.len()
        invariant
            i <= cells@.len(),
            views == cell_views(cells@),
            store_fits(params, start),
            compact_store.cell_start == start.cell_start,
            compact_store.cell_size == start.cell_size,
            compact_store.grid_width == start.grid_width,
            compact_store.grid_height == start.grid_height,
            compact_store.data@ == added(
                start.data@,
                all_updates(views.take(i as int)),
                start.slots(),
            ),
            forall|j: int| 0 <= j < views.len() ==> decoded_cell_fits(params, #[trigger] views[j]),
        decreases cells@.len() - i,
    {
        let ghost done = all_updates(views.take(i as int));
        assert(views[i as int] == cells@[i as int]@);
        add_to_store(&params, compact_store, &cells[i], Ghost(start), Ghost(done));
        assert(views.take(i + 1).drop_last() =~= views.take(i as int));
        i = i + 1;
    }
    assert(views.take(i as int) =~= views);
    r
}

// ---- one block at a time ----
/// A decoded block with the coefficients of its three channels, one behind the other.
pub struct HfBlock {
    pub x: usize,
    pub y: usize,
    pub dct_select: TransformType,
    pub hf_mul: i32,
    pub coeffs: Vec<i32>,
}

pub struct HfBlockModel {
    pub x: usize,
    pub y: usize,
    pub dct_select: TransformType,
    pub hf_mul: i32,
    pub coeffs: Seq<i32>,
}

impl View for HfBlock {
    type V = HfBlockModel;

    open spec fn view(&self) -> HfBlockModel {
        HfBlockModel {
            x: self.x,
            y: self.y,
            dct_select: self.dct_select,
            hf_mul: self.hf_mul,
            coeffs: self.coeffs@,
        }
    }
}

impl HfBlock {
    /// The coefficients of a channel.
    pub fn channel(&self, c: usize) -> (r: &[i32])
        requires
            c < 3,
            self.coeffs@.len() == 3 * (64 * self.dct_select.blocks()),
        ensures
            r@ == self.coeffs@.subrange(
                c * (64 * self.dct_select.blocks()),
                (c + 1) * (64 * self.dct_select.blocks()),
            ),
    {
        let (blocks, log) = self.dct_select.block_count();
        let size: usize = 64 * blocks as usize;
        let total: usize = self.coeffs.len();
        assert((c + 1) * size == c * size + size && 0 <= c * size <= 2 * size) by (nonlinear_arith)
            requires
                0 <= c <= 2,
                size >= 0,
        ;
        vstd::slice::slice_subrange(self.coeffs.as_slice(), c * size, c * size + size)
    }
}

pub open spec fn block_slot(u: HfUpdate, size: int) -> int {
    u.channel * size + (u.dy * u.block_width + u.dx)
}

pub open spec fn block_slots(size: int) -> spec_fn(HfUpdate) -> int {
    |u: HfUpdate| block_slot(u, size)
}

/// A decoded block.
pub open spec fn block_of(cell: CellModel) -> HfBlockModel {
    let size = 64 * cell.dct_select.blocks();
    HfBlockModel {
        x: cell.x,
        y: cell.y,
        dct_select: cell.dct_select,
        hf_mul: cell.hf_mul,
        coeffs: added(
            Seq::new((3 * size) as nat, |k: int| 0i32),
            cell.updates,
            block_slots(size),
        ),
    }
}

/// The blocks that were decoded completely.
pub open spec fn whole_blocks(cells: Seq<CellModel>) -> Seq<HfBlockModel>
    decreases cells.len(),
{
    if cells.len() == 0 {
        Seq::empty()
    } else if cells.last().complete {
        whole_blocks(cells.drop_last()).push(block_of(cells.last()))
    } else {
        whole_blocks(cells.drop_last())
    }
}

pub open spec fn block_views(blocks: Seq<HfBlock>) -> Seq<HfBlockModel> {
    Seq::new(blocks.len(), |i: int| blocks[i]@)
}

/// Puts the coefficients of a block together.
fn collect_block(Ghost(p): Ghost<HfCoeffParams<'_>>, cell: &HfCell) -> (r: HfBlock)
    requires
        decoded_cell_fits(p, cell@),
    ensures
        r@ == block_of(cell@),
{
    let (blocks, log) = cell.dct_select.block_count();
    let size: usize = 64 * blocks as usize;
    let mut coeffs: Vec<i32> = vec![0; size * 3];
    let ghost us = cell.updates@;
    let ghost zero = Seq::new((3 * size) as nat, |k: int| 0i32);
    let ghost f = block_slots(size as int);
    proof {
        assert(coeffs@ =~= zero);
        lemma_added_none(zero, f);
        assert(us.take(0) =~= Seq::<HfUpdate>::empty());
    }
    let mut i: usize = 0;
    while i < cell.updates.len()
        invariant
            i <= us.len(),
            us == cell.updates@,
            decoded_cell_fits(p, cell@),
            size == 64 * cell.dct_select.blocks(),
            64 <= size <= 65536,
            zero.len() == 3 * size,
            f == block_slots(size as int),
            coeffs@ == added(zero, us.take(i as int), f),
        decreases us.len() - i,
    {
        let u: HfUpdate = cell.updates[i];
        let ghost t = cell.dct_select;
        proof {
            assert(update_fits(p, us[i as int], cell.x as int, cell.y as int, t));
            let w = t.size().0;
            let h = t.size().1;
            lemma_flat(u.dx as int, u.dy as int, 8 * w, 8 * h);
            assert((8 * w) * (8 * h) == 64 * (w * h)) by (nonlinear_arith);
            let c = u.channel as int;
            let s = size as int;
            assert(0 <= c * s <= 2 * s) by (nonlinear_arith)
                requires
                    0 <= c <= 2,
                    s >= 0,
            ;
        }
        let at: usize = u.channel * size + (u.dy * u.block_width + u.dx);
        let ghost value = wrap32(coeffs@[at as int] + u.value) as i32;
        add_at(&mut coeffs, at, u.value);
        proof {
            lemma_added_push(zero, us.take(i as int), u, f, value);
            assert(us.take(i + 1) =~= us.take(i as int).push(u));
        }
        i = i + 1;
    }
    assert(us.take(us.len() as int) =~= us);
    HfBlock {
        x: cell.x,
        y: cell.y,
        dct_select: cell.dct_select,
        hf_mul: cell.hf_mul,
        coeffs,
    }
}

/// Decodes the coefficients of a group without subsampling, a block at a time. Blocks that were
/// decoded completely before an error are handed out.
pub fn write_hf_coeff_direct<R: SymbolSource>(
    bitstream: &mut R,
    params: HfCoeffParams<'_>,
    blocks: &mut Vec<HfBlock>,
) -> (r: Result<(), VardctError>)
    requires
        params.wf(),
        forall|k: int| 0 <= k < 3 ==> #[trigger] params.jpeg_upsampling@[k] == 0,
    ensures
        ({
            let run = group_run::<R>(params, old(bitstream).model());
            &&& r == run.0
            &&& final(bitstream).model() == run.1
            &&& block_views(final(blocks)@) == block_views(old(blocks)@) + whole_blocks(run.2)
        }),
{
    let ghost m = bitstream.model();
    let (r, cells) = decode_group(bitstream, &params);
    let ghost views = cell_views(cells@);
    let ghost start = block_views(blocks@);
    proof {
        lemma_group_fits::<R>(params, m);
        assert(whole_blocks(views.take(0)) =~= Seq::empty());
        assert(start + Seq::<HfBlockModel>::empty() =~= start);
    }
    let mut i: usize = 0;
    while i < cells.len()
        invariant
            i <= cells@.len(),
            views == cell_views(cells@),
            block_views(blocks@) == start + whole_blocks(views.take(i as int)),
            forall|j: int| 0 <= j < views.len() ==> decoded_cell_fits(params, #[trigger] views[j]),
        decreases cells@.len() - i,
    {
        assert(views[i as int] == cells@[i as int]@);
        assert(views.take(i + 1).drop_last() =~= views.take(i as int));
        if cells[i].complete {
            let block = collect_block(Ghost(params), &cells[i]);
            let ghost before = blocks@;
            blocks.push(block);
            assert(block_views(blocks@) =~= block_views(before).push(block@));
            assert(block_views(blocks@) =~= start + whole_blocks(views.take(i + 1)));
        }
        i = i + 1;
    }
    assert(views.take(i as int) =~= views);
    r
}

// ---- how the three agree ----
/// Position of an update within a slab, for updates of that slab.
pub open spec fn slab_position(u: HfUpdate, c: int, bx: int, by: int) -> int {
    if u.channel == c && u.bx == bx && u.by == by {
        u.dy * u.block_width + u.dx
    } else {
        -1
    }
}

pub open spec fn in_slab(c: int, bx: int, by: int) -> spec_fn(HfUpdate) -> int {
    |u: HfUpdate| slab_position(u, c, bx, by)
}

/// Two position functions that hit their targets with the same coefficients give the same sum.
pub proof fn lemma_same_sum(
    updates: Seq<HfUpdate>,
    f: spec_fn(HfUpdate) -> int,
    p: int,
    g: spec_fn(HfUpdate) -> int,
    q: int,
)
    requires
        forall|i: int|
            0 <= i < updates.len() ==> ((f(#[trigger] updates[i]) == p) == (g(updates[i]) == q)),
    ensures
        sum_at(updates, f, p) == sum_at(updates, g, q),
    decreases updates.len(),
{
    if updates.len() > 0 {
        let n = updates.len() - 1;
        assert(updates.last() == updates[n]);
        assert forall|i: int| 0 <= i < n implies ((f(#[trigger] updates.drop_last()[i]) == p) == (g(
            updates.drop_last()[i],
        ) == q)) by {
            assert(updates.drop_last()[i] == updates[i]);
        }
        lemma_same_sum(updates.drop_last(), f, p, g, q);
    }
}

proof fn lemma_slot_hits(
    store: CompactHfCoeffStore,
    u: HfUpdate,
    c: int,
    bx: int,
    by: int,
    i: int,
)
    requires
        store.wf(),
        in_store(store, u),
        0 <= c < 3,
        0 <= bx < store.grid_width,
        0 <= by < store.grid_height,
        0 <= i < store.size(store.cell(bx, by)),
    ensures
        (store.slot(u) == store.start(store.cell(bx, by)) + c * store.size(store.cell(bx, by)) + i)
            == (slab_position(u, c, bx, by) == i),
{
    let a = store.cell(u.bx as int, u.by as int);
    let b = store.cell(bx, by);
    lemma_slot(store, u);
    lemma_flat(bx, by, store.grid_width as int, store.grid_height as int);
    let s = store.size(b);
    assert(0 <= c * s <= 2 * s) by (nonlinear_arith)
        requires
            0 <= c <= 2,
            s >= 0,
    ;
    if a == b {
        lemma_flat_injective(u.bx as int, u.by as int, bx, by, store.grid_width as int);
        let d = u.channel as int;
        let off = u.dy * u.block_width + u.dx;
        if d * s + off == c * s + i {
            assert(d == c) by (nonlinear_arith)
                requires
                    d * s + off == c * s + i,
                    0 <= off < s,
                    0 <= i < s,
            ;
        }
    } else {
        assert(store.size(a) != 0 && store.size(b) != 0);
        if a < b {
            assert(store.start(a) + 3 * store.size(a) <= store.start(b));
        } else {
            assert(store.start(b) + 3 * store.size(b) <= store.start(a));
        }
    }
}

/// After coefficients were added to a store, each slab has gained the coefficients of its own
/// block and channel, and no others.
pub proof fn lemma_slab_gains(
    store: CompactHfCoeffStore,
    after: CompactHfCoeffStore,
    updates: Seq<HfUpdate>,
    bx: int,
    by: int,
    c: int,
    i: int,
)
    requires
        store.wf(),
        after.cell_start == store.cell_start,
        after.cell_size == store.cell_size,
        after.grid_width == store.grid_width,
        after.data@ == added(store.data@, updates, store.slots()),
        forall|k: int| 0 <= k < updates.len() ==> in_store(store, #[trigger] updates[k]),
        0 <= c < 3,
        0 <= bx < store.grid_width,
        0 <= by < store.grid_height,
        0 <= i < store.size(store.cell(bx, by)),
    ensures
        after.channel(bx, by, c)[i] == wrap32(
            store.channel(bx, by, c)[i] + sum_at(updates, in_slab(c, bx, by), i),
        ),
{
    store.lemma_channel(bx, by, c);
    let b = store.cell(bx, by);
    let p = store.start(b) + c * store.size(b) + i;
    assert forall|k: int| 0 <= k < updates.len() implies ((store.slots()(#[trigger] updates[k])
        == p) == (in_slab(c, bx, by)(updates[k]) == i)) by {
        lemma_slot_hits(store, updates[k], c, bx, by, i);
    }
    lemma_same_sum(updates, store.slots(), p, in_slab(c, bx, by), i);
}

} // verus!
