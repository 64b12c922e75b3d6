//! High-frequency coefficients of a group of blocks.
use crate::jxl::block::{channel_shift, shifted, shifted_len, BlockInfo, ChannelShift, TransformType};
use crate::jxl::error::{BitstreamError, OutOfMemory, VardctError};
use crate::jxl::grid::SharedSubgrid;
use crate::jxl::hf_tables::{freq_context, nonzero_context};
use crate::jxl::symbols::SymbolSource;
use crate::vp8::arith::wrap32;
use vstd::arithmetic::power2::pow2;
use vstd::prelude::*;

verus! {

/// Thresholds and map from which the context of a block follows.
pub struct HfBlockContext {
    pub qf_thresholds: Vec<u32>,
    pub lf_thresholds: [Vec<i32>; 3],
    pub block_ctx_map: Vec<u8>,
    pub num_block_clusters: u32,
}

impl HfBlockContext {
    /// Number of classes of low-frequency values of a channel.
    pub open spec fn lf_sizes(&self, c: int) -> int {
        self.lf_thresholds@[c]@.len() as int + 1
    }

    /// Number of classes of low-frequency values of all channels.
    pub open spec fn lf_classes(&self) -> int {
        self.lf_sizes(0) * self.lf_sizes(1) * self.lf_sizes(2)
    }

    /// Number of classes of quantizer factors.
    pub open spec fn hf_classes(&self) -> int {
        self.qf_thresholds@.len() as int + 1
    }

    /// The map has an entry for every channel, order and class.
    pub open spec fn wf(&self) -> bool {
        &&& self.num_block_clusters <= 256
        &&& self.block_ctx_map@.len() == 39 * self.hf_classes() * self.lf_classes()
        &&& forall|i: int|
            0 <= i < self.block_ctx_map@.len() ==> #[trigger] self.block_ctx_map@[i]
                < self.num_block_clusters
    }
}

/// Coefficient orders and context clusters of a pass.
pub struct HfPass {
    /// Coordinates in each order, for order `o` and channel `c` at `3 * o + c`.
    pub orders: Vec<Vec<(u8, u8)>>,
    pub cluster_map: Vec<u8>,
}

impl HfPass {
    pub open spec fn order(&self, order_id: int, c: int) -> Seq<(u8, u8)> {
        self.orders@[order_id * 3 + c]@
    }
}

/// Parameters for decoding the coefficients of a group.
pub struct HfCoeffParams<'a> {
    pub num_hf_presets: u32,
    pub hf_block_ctx: &'a HfBlockContext,
    pub block_info: SharedSubgrid<'a, BlockInfo>,
    pub jpeg_upsampling: [u32; 3],
    pub lf_quant: Option<[SharedSubgrid<'a, i32>; 3]>,
    pub hf_pass: &'a HfPass,
    pub coeff_shift: u32,
    /// Bytes that may still be allocated, if they are counted.
    pub tracker: Option<usize>,
}

/// Contexts per block cluster.
pub const CONTEXTS_PER_CLUSTER: usize = 495;

/// Contexts for the number of nonzero coefficients, per block cluster.
pub const NONZERO_CONTEXTS: usize = 37;

/// Contexts for coefficients, per block cluster.
pub const COEFF_CONTEXTS: usize = 458;

/// Channels in the order in which they are coded.
pub open spec fn channel_of(k: int) -> int {
    if k == 0 {
        1
    } else if k == 1 {
        0
    } else {
        2
    }
}

/// One decoded coefficient: where it goes and what is added there.
#[derive(Clone, Copy)]
pub struct HfUpdate {
    pub channel: usize,
    /// The upper left cell of the block within its channel.
    pub bx: usize,
    pub by: usize,
    /// The position within the block.
    pub dx: usize,
    pub dy: usize,
    /// Width of the block in pixels.
    pub block_width: usize,
    pub value: i32,
}

impl<'a> HfCoeffParams<'a> {
    pub open spec fn shift(&self, c: int) -> ChannelShift {
        channel_shift(self.jpeg_upsampling@, c)
    }

    pub open spec fn sx(&self, c: int, x: int) -> int {
        shifted(x, self.shift(c).h_subsample)
    }

    pub open spec fn sy(&self, c: int, y: int) -> int {
        shifted(y, self.shift(c).v_subsample)
    }

    /// Cells in a row of a channel.
    pub open spec fn row_len(&self, c: int) -> int {
        shifted_len(
            self.block_info.width as int,
            self.shift(c).has_h_subsample,
            self.shift(c).h_subsample,
        )
    }

    pub open spec fn clusters(&self) -> int {
        self.hf_block_ctx.num_block_clusters as int
    }

    /// Whether the channel has no block of its own at a cell.
    pub open spec fn skipped(&self, c: int, x: int, y: int) -> bool {
        let s = self.shift(c);
        &&& s.h_subsample || s.v_subsample
        &&& {
            ||| s.h_subsample && x % 2 == 1
            ||| s.v_subsample && y % 2 == 1
            ||| !(self.block_info.at(self.sx(c, x), self.sy(c, y)) is Data)
        }
    }

    /// The block at a cell fits into the rows of its channels, and its coefficient orders cover
    /// it.
    pub open spec fn cell_fits(&self, x: int, y: int) -> bool {
        self.block_info.at(x, y) matches BlockInfo::Data { dct_select, .. } ==> forall|c: int|
            0 <= c < 3 ==> self.channel_fits(c, x, y, dct_select)
    }

    pub open spec fn channel_fits(&self, c: int, x: int, y: int, t: TransformType) -> bool {
        &&& !self.skipped(c, x, y) ==> self.sx(c, x) + t.size().0 <= self.row_len(c)
        &&& t.order() * 3 + c < self.hf_pass.orders@.len()
        &&& order_fits(self.hf_pass.order(t.order(), c), t)
    }

    pub open spec fn lf_fits(&self) -> bool {
        self.lf_quant matches Some(grids) ==> forall|c: int|
            0 <= c < 3 ==> (#[trigger] grids@[c]).wf() && self.sx(
                c,
                self.block_info.width - 1,
            ) < grids@[c].width && self.sy(c, self.block_info.height - 1) < grids@[c].height
    }

    pub open spec fn wf(&self) -> bool {
        &&& self.hf_block_ctx.wf()
        &&& self.block_info.wf()
        &&& 12 * (self.block_info.width + 1) <= usize::MAX
        &&& self.block_info.height < usize::MAX
        &&& 1 <= self.num_hf_presets <= 0x8000_0000
        &&& self.coeff_shift < 32
        &&& self.hf_pass.cluster_map@.len() >= CONTEXTS_PER_CLUSTER * self.clusters()
            * self.num_hf_presets
        &&& self.lf_fits()
        &&& forall|x: int, y: int|
            0 <= x < self.block_info.width && 0 <= y < self.block_info.height
                ==> #[trigger] self.cell_fits(x, y)
    }
}

/// A coefficient order covers a transform and stays within it.
pub open spec fn order_fits(order: Seq<(u8, u8)>, t: TransformType) -> bool {
    &&& order.len() == 64 * t.blocks()
    &&& forall|j: int|
        0 <= j < order.len() ==> {
            let d = #[trigger] placed(order[j], t.transposed());
            d.0 < 8 * t.size().0 && d.1 < 8 * t.size().1
        }
}

/// Coordinates of a coefficient, swapped for some transforms.
pub open spec fn placed(coord: (u8, u8), transposed: bool) -> (int, int) {
    if transposed {
        (coord.1 as int, coord.0 as int)
    } else {
        (coord.0 as int, coord.1 as int)
    }
}

// ---- contexts ----
/// Number of thresholds below a value.
pub open spec fn thresholds_below(thresholds: Seq<i32>, n: nat, q: int) -> int
    decreases n,
{
    if n == 0 {
        0
    } else {
        thresholds_below(thresholds, (n - 1) as nat, q) + if q > thresholds[n - 1] {
            1int
        } else {
            0
        }
    }
}

/// Class of a low-frequency value.
pub open spec fn lf_class(thresholds: Seq<i32>, q: int) -> int {
    thresholds_below(thresholds, thresholds.len(), q)
}

/// Number of the first `n` quantizer thresholds below a factor.
pub open spec fn factors_below(thresholds: Seq<u32>, n: nat, qf: i32) -> int
    decreases n,
{
    if n == 0 {
        0
    } else {
        factors_below(thresholds, (n - 1) as nat, qf) + if qf > thresholds[n - 1] as i32 {
            1int
        } else {
            0
        }
    }
}

pub open spec fn hf_class(p: HfCoeffParams, qf: i32) -> int {
    factors_below(p.hf_block_ctx.qf_thresholds@, p.hf_block_ctx.qf_thresholds@.len(), qf)
}

/// Class of the low-frequency values of the three channels at a cell.
#[verifier::opaque]
pub open spec fn lf_index(p: HfCoeffParams, x: int, y: int) -> int {
    match p.lf_quant {
        None => 0,
        Some(grids) => {
            let t = p.hf_block_ctx.lf_thresholds@;
            let c0 = lf_class(t[0]@, grids@[0].at(p.sx(0, x), p.sy(0, y)) as int);
            let c1 = lf_class(t[1]@, grids@[1].at(p.sx(1, x), p.sy(1, y)) as int);
            let c2 = lf_class(t[2]@, grids@[2].at(p.sx(2, x), p.sy(2, y)) as int);
            (c0 * p.hf_block_ctx.lf_sizes(2) + c2) * p.hf_block_ctx.lf_sizes(1) + c1
        },
    }
}

/// Cluster of a block.
#[verifier::opaque]
pub open spec fn block_cluster(p: HfCoeffParams, t: TransformType, qf: i32, x: int, y: int, k: int)
    -> int {
    p.hf_block_ctx.block_ctx_map@[((k * 13 + t.order()) * p.hf_block_ctx.hf_classes() + hf_class(
        p,
        qf,
    )) * p.hf_block_ctx.lf_classes() + lf_index(p, x, y)] as int
}

/// The number of nonzero coefficients that a block's neighbours suggest.
pub open spec fn predicted(row: Seq<u32>, sx: int, sy: int) -> int {
    if sy == 0 {
        if sx == 0 {
            32
        } else {
            row[sx - 1] as int
        }
    } else if sx == 0 {
        row[sx] as int
    } else {
        (row[sx] + row[sx - 1] + 1) / 2
    }
}

pub open spec fn count_class(predicted: int) -> int {
    if predicted >= 8 {
        4 + predicted / 2
    } else {
        predicted
    }
}

/// Context of a coefficient within a block's cluster.
pub open spec fn coeff_context(nonzeros: int, idx: int, blocks: int, prev: int) -> int {
    (nonzero_context((nonzeros - 1) / blocks) + freq_context(idx / blocks)) * 2 + prev
}

/// Signed number of an unsigned one: even numbers are not negative, odd ones are.
pub open spec fn unpack_signed_spec(u: u32) -> int {
    if u % 2 == 0 {
        u as int / 2
    } else {
        -(u as int / 2) - 1
    }
}

/// Value of a coefficient's symbol.
pub open spec fn coeff_value(u: u32, shift: int) -> i32 {
    wrap32(unpack_signed_spec(u) * pow2(shift as nat)) as i32
}

/// The row after the cells of a block got their number.
pub open spec fn row_filled(row: Seq<u32>, sx: int, w8: int, value: u32) -> Seq<u32> {
    Seq::new(
        row.len(),
        |i: int|
            if sx <= i < sx + w8 {
                value
            } else {
                row[i]
            },
    )
}

// ---- decoding ----
pub open spec fn invalid<T>(reason: &'static str) -> Result<T, VardctError> {
    Err(VardctError::Bitstream(BitstreamError::ValidationFailed(reason)))
}

/// What is decoded of a part of a group: how it ended, the state after it, and the coefficients.
pub type Run<M> = (Result<(), VardctError>, M, Seq<HfUpdate>);

/// Where a block's coefficients go.
pub struct BlockPlace {
    pub channel: int,
    pub bx: int,
    pub by: int,
    pub t: TransformType,
}

pub open spec fn update_at(place: BlockPlace, coord: (u8, u8), value: i32) -> HfUpdate {
    let d = placed(coord, place.t.transposed());
    HfUpdate {
        channel: place.channel as usize,
        bx: place.bx as usize,
        by: place.by as usize,
        dx: d.0 as usize,
        dy: d.1 as usize,
        block_width: (place.t.size().0 * 8) as usize,
        value,
    }
}

/// Coefficients of a block from position `idx` behind the low frequencies on.
pub open spec fn coeffs_run<R: SymbolSource>(
    clusters: Seq<u8>,
    order: Seq<(u8, u8)>,
    place: BlockPlace,
    shift: int,
    idx: int,
    nonzeros: int,
    prev: int,
    m: R::Model,
) -> Run<R::Model>
    decreases order.len() - idx,
{
    let blocks = place.t.blocks();
    if idx < 0 || idx >= order.len() - blocks || blocks <= 0 {
        (Ok(()), m, Seq::empty())
    } else {
        let ctx = coeff_context(nonzeros, idx, blocks, prev);
        if ctx >= COEFF_CONTEXTS {
            (invalid("too many zeros in varblock HF coefficient"), m, Seq::empty())
        } else {
            match R::symbol(m, clusters[ctx]) {
                (Err(e), m2) => (Err(VardctError::Decoder(e)), m2, Seq::empty()),
                (Ok(u), m2) => if u == 0 {
                    coeffs_run::<R>(clusters, order, place, shift, idx + 1, nonzeros, 0, m2)
                } else {
                    let update = update_at(place, order[blocks + idx], coeff_value(u, shift));
                    if nonzeros == 1 {
                        (Ok(()), m2, seq![update])
                    } else {
                        let rest = coeffs_run::<R>(
                            clusters,
                            order,
                            place,
                            shift,
                            idx + 1,
                            nonzeros - 1,
                            1,
                            m2,
                        );
                        (rest.0, rest.1, seq![update] + rest.2)
                    }
                },
            }
        }
    }
}

pub open spec fn few_nonzeros(nonzeros: int, blocks: int) -> int {
    if nonzeros <= blocks * 4 {
        1
    } else {
        0
    }
}

/// One channel of a block: its run, and the row of numbers of nonzero coefficients after it.
#[verifier::opaque]
pub open spec fn channel_run<R: SymbolSource>(
    p: HfCoeffParams,
    map: Seq<u8>,
    t: TransformType,
    qf: i32,
    x: int,
    y: int,
    k: int,
    m: R::Model,
    row: Seq<u32>,
) -> (Run<R::Model>, Seq<u32>) {
    let c = channel_of(k);
    let sx = p.sx(c, x);
    let sy = p.sy(c, y);
    if p.skipped(c, x, y) {
        ((Ok(()), m, Seq::empty()), row)
    } else {
        let cluster = block_cluster(p, t, qf, x, y, k);
        let ctx = cluster + count_class(predicted(row, sx, sy)) * p.clusters();
        match R::symbol(m, map[ctx]) {
            (Err(e), m2) => ((Err(VardctError::Decoder(e)), m2, Seq::empty()), row),
            (Ok(nonzeros), m2) => if nonzeros > 63 * t.blocks() {
                ((invalid("non_zeros too large"), m2, Seq::empty()), row)
            } else {
                let per_block = (nonzeros + t.blocks() - 1) / t.blocks();
                let row2 = row_filled(row, sx, t.size().0, per_block as u32);
                if nonzeros == 0 {
                    ((Ok(()), m2, Seq::empty()), row2)
                } else {
                    let base = cluster * COEFF_CONTEXTS + NONZERO_CONTEXTS * p.clusters();
                    (
                        coeffs_run::<R>(
                            map.subrange(base, base + COEFF_CONTEXTS),
                            p.hf_pass.order(t.order(), c),
                            BlockPlace { channel: c, bx: sx, by: sy, t },
                            p.coeff_shift as int,
                            0,
                            nonzeros as int,
                            few_nonzeros(nonzeros as int, t.blocks()),
                            m2,
                        ),
                        row2,
                    )
                }
            },
        }
    }
}

/// The channels of a block from step `k` on.
pub open spec fn channels_run<R: SymbolSource>(
    p: HfCoeffParams,
    map: Seq<u8>,
    t: TransformType,
    qf: i32,
    x: int,
    y: int,
    k: int,
    m: R::Model,
    rows: Seq<Seq<u32>>,
) -> (Run<R::Model>, Seq<Seq<u32>>)
    decreases 3 - k,
{
    if k >= 3 {
        ((Ok(()), m, Seq::empty()), rows)
    } else {
        let c = channel_of(k);
        let (run, row) = channel_run::<R>(p, map, t, qf, x, y, k, m, rows[c]);
        let rows2 = rows.update(c, row);
        if run.0 is Err {
            (run, rows2)
        } else {
            let (rest, rows3) = channels_run::<R>(p, map, t, qf, x, y, k + 1, run.1, rows2);
            ((rest.0, rest.1, run.2 + rest.2), rows3)
        }
    }
}

/// A block and what was decoded of it.
pub struct CellModel {
    pub x: usize,
    pub y: usize,
    pub dct_select: TransformType,
    pub hf_mul: i32,
    /// Whether all of it was decoded.
    pub complete: bool,
    pub updates: Seq<HfUpdate>,
}

/// The blocks of a group from cell `x`, `y` on.
pub open spec fn cells_run<R: SymbolSource>(
    p: HfCoeffParams,
    map: Seq<u8>,
    x: int,
    y: int,
    m: R::Model,
    rows: Seq<Seq<u32>>,
) -> (Result<(), VardctError>, R::Model, Seq<CellModel>)
    decreases p.block_info.height - y, p.block_info.width - x,
{
    if y >= p.block_info.height {
        (Ok(()), m, Seq::empty())
    } else if x >= p.block_info.width {
        cells_run::<R>(p, map, 0, y + 1, m, rows)
    } else {
        match p.block_info.at(x, y) {
            BlockInfo::Data { dct_select, hf_mul } => {
                let (run, rows2) = channels_run::<R>(
                    p,
                    map,
                    dct_select,
                    hf_mul,
                    x,
                    y,
                    0,
                    m,
                    rows,
                );
                let cell = CellModel {
                    x: x as usize,
                    y: y as usize,
                    dct_select,
                    hf_mul,
                    complete: run.0 is Ok,
                    updates: run.2,
                };
                if run.0 is Err {
                    (run.0, run.1, seq![cell])
                } else {
                    let rest = cells_run::<R>(p, map, x + 1, y, run.1, rows2);
                    (rest.0, rest.1, seq![cell] + rest.2)
                }
            },
            _ => cells_run::<R>(p, map, x + 1, y, m, rows),
        }
    }
}

/// Bits that a number below `n` takes.
pub open spec fn bits_below(n: int, k: int) -> int
    decreases 32 - k,
{
    if k >= 32 || pow2(k as nat) >= n {
        k
    } else {
        bits_below(n, k + 1)
    }
}

/// Bytes for one row of numbers per channel.
pub open spec fn row_bytes(p: HfCoeffParams) -> int {
    4 * (p.row_len(0) + p.row_len(1) + p.row_len(2))
}

pub open spec fn zero_rows(p: HfCoeffParams) -> Seq<Seq<u32>> {
    Seq::new(3, |c: int| Seq::new(p.row_len(c) as nat, |i: int| 0u32))
}

/// A whole group: the preset, the start of the entropy decoder, the blocks, and its end.
pub open spec fn group_run<R: SymbolSource>(p: HfCoeffParams, m: R::Model) -> (
    Result<(), VardctError>,
    R::Model,
    Seq<CellModel>,
) {
    match R::bits(m, bits_below(p.num_hf_presets as int, 0)) {
        (Err(e), m1) => (Err(VardctError::Bitstream(e)), m1, Seq::empty()),
        (Ok(preset), m1) => if preset >= p.num_hf_presets {
            (invalid("selected HF preset out of bounds"), m1, Seq::empty())
        } else {
            match R::begun(m1) {
                (Err(e), m2) => (Err(VardctError::Decoder(e)), m2, Seq::empty()),
                (Ok(_), m2) => if p.tracker is Some && row_bytes(p) > p.tracker->Some_0 {
                    (
                        Err(VardctError::Buffer(OutOfMemory(row_bytes(p) as usize))),
                        m2,
                        Seq::empty(),
                    )
                } else {
                    let size = CONTEXTS_PER_CLUSTER * p.clusters();
                    let map = p.hf_pass.cluster_map@.subrange(
                        size * preset,
                        size * preset + size,
                    );
                    let run = cells_run::<R>(p, map, 0, 0, m2, zero_rows(p));
                    if run.0 is Err {
                        run
                    } else {
                        match R::ended(run.1) {
                            (Err(e), m4) => (Err(VardctError::Decoder(e)), m4, run.2),
                            (Ok(_), m4) => (Ok(()), m4, run.2),
                        }
                    }
                },
            }
        },
    }
}

} // verus!
