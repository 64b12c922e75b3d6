//! Decoding of a group's high-frequency coefficients, symbol by symbol.
use crate::jxl::block::{BlockInfo, ChannelShift, TransformType};
use crate::jxl::error::{BitstreamError, OutOfMemory, VardctError};
use crate::jxl::hf_coeff::{
    bits_below, block_cluster, cells_run, channel_of, channel_run, channels_run, coeff_context,
    coeff_value, coeffs_run, count_class, factors_below, few_nonzeros, group_run, lf_class,
    lf_index, order_fits, placed, predicted, row_filled, thresholds_below, unpack_signed_spec,
    update_at, zero_rows, BlockPlace, CellModel, HfBlockContext, HfCoeffParams, HfUpdate,
    COEFF_CONTEXTS, CONTEXTS_PER_CLUSTER, NONZERO_CONTEXTS,
};
use crate::jxl::hf_tables::{freq_context_at, nonzero_context_at};
use crate::jxl::symbols::SymbolSource;
use crate::vp8::arith::wrap32;
use vstd::arithmetic::power2::{lemma2_to64, lemma_pow2_pos, lemma_pow2_unfold, pow2};
use vstd::prelude::*;

verus! {

fn invalid(reason: &'static str) -> (r: Result<(), VardctError>)
    ensures
        r == crate::jxl::hf_coeff::invalid::<()>(reason),
{
    Err(VardctError::Bitstream(BitstreamError::ValidationFailed(reason)))
}

/// Signed number of an unsigned one: even numbers are not negative, odd ones are.
pub fn unpack_signed(u: u32) -> (r: i32)
    ensures
        r == unpack_signed_spec(u),
{
    if u % 2 == 0 {
        (u / 2) as i32
    } else {
        -((u / 2) as i32) - 1
    }
}

/// Shifts a coefficient up, keeping its 32 low bits.
fn shifted_coeff(u: u32, shift: u32) -> (r: i32)
    requires
        shift < 32,
    ensures
        r == coeff_value(u, shift as int),
{
    let v: i32 = unpack_signed(u);
    let unit: u64 = crate::math::pow2_u64(shift as u8);
    proof {
        lemma2_to64();
        crate::math::lemma_pow2_mono(shift as nat, 31);
        lemma_pow2_pos(shift as nat);
    }
    let low: u64 = if v < 0 {
        (v as i64 + 0x1_0000_0000) as u64
    } else {
        v as u64
    };
    let ghost p = unit as int;
    assert(0 <= low * p <= 0xffff_ffff * 0x8000_0000) by (nonlinear_arith)
        requires
            0 <= low <= 0xffff_ffff,
            0 <= p <= 0x8000_0000,
    ;
    let bits: u64 = low * unit % 0x1_0000_0000;
    let r: i64 = if bits >= 0x8000_0000 {
        bits as i64 - 0x1_0000_0000
    } else {
        bits as i64
    };
    proof {
        let x = v as int * p;
        let y = low as int * p;
        if v < 0 {
            assert(y == x + 0x1_0000_0000 * p) by (nonlinear_arith)
                requires
                    y == (v + 0x1_0000_0000) * p,
                    x == v * p,
            ;
        }
        assert(r == wrap32(x)) by {
            let k = if v < 0 {
                p
            } else {
                0
            };
            assert(y == x + 0x1_0000_0000 * k);
            assert(y % 0x1_0000_0000 == bits);
        }
    }
    r as i32
}

/// Number of thresholds below a value.
fn count_below(thresholds: &Vec<i32>, q: i32) -> (r: usize)
    ensures
        r == lf_class(thresholds@, q as int),
        r <= thresholds@.len(),
{
    let mut n: usize = 0;
    let mut count: usize = 0;
    while n < thresholds.len()
        invariant
            n <= thresholds@.len(),
            count <= n,
            count == thresholds_below(thresholds@, n as nat, q as int),
        decreases thresholds@.len() - n,
    {
        if q > thresholds[n] {
            count = count + 1;
        }
        n = n + 1;
    }
    count
}

fn count_factors(thresholds: &Vec<u32>, qf: i32) -> (r: usize)
    ensures
        r == factors_below(thresholds@, thresholds@.len(), qf),
        r <= thresholds@.len(),
{
    let mut n: usize = 0;
    let mut count: usize = 0;
    while n < thresholds.len()
        invariant
            n <= thresholds@.len(),
            count <= n,
            count == factors_below(thresholds@, n as nat, qf),
        decreases thresholds@.len() - n,
    {
        if qf > thresholds[n] as i32 {
            count = count + 1;
        }
        n = n + 1;
    }
    count
}

/// An index made of digits stays below the product of their bases.
proof fn lemma_digit(a: int, b: int, x: int, y: int)
    requires
        0 <= a < x,
        0 <= b < y,
    ensures
        0 <= a * y + b < x * y,
        a * y >= 0,
{
    assert(a * y >= 0) by (nonlinear_arith)
        requires
            a >= 0,
            y >= 0,
    ;
    assert(a * y + y <= x * y) by (nonlinear_arith)
        requires
            a + 1 <= x,
            y >= 0,
    ;
}

/// The classes of all channels and factors fit the map.
proof fn lemma_classes(ctx: HfBlockContext)
    requires
        ctx.wf(),
    ensures
        1 <= ctx.hf_classes(),
        1 <= ctx.lf_classes() <= ctx.block_ctx_map@.len(),
        ctx.lf_sizes(0) * ctx.lf_sizes(1) <= ctx.lf_classes(),
        ctx.lf_sizes(0) * ctx.lf_sizes(2) <= ctx.lf_classes(),
        39 * ctx.hf_classes() * ctx.lf_classes() == ctx.block_ctx_map@.len(),
        1 <= ctx.lf_sizes(0) * ctx.lf_sizes(1),
{
    let a = ctx.lf_sizes(0);
    let b = ctx.lf_sizes(1);
    let c = ctx.lf_sizes(2);
    let h = ctx.hf_classes();
    let l = ctx.lf_classes();
    assert(a * b >= 1 && a * c >= 1 && a * b * c >= a * b && a * b * c >= a * c) by (nonlinear_arith)
        requires
            a >= 1,
            b >= 1,
            c >= 1,
    ;
    assert(39 * h * l >= l) by (nonlinear_arith)
        requires
            h >= 1,
            l >= 1,
    ;
}

proof fn lemma_lf_index(ctx: HfBlockContext, c0: int, c1: int, c2: int)
    requires
        ctx.wf(),
        0 <= c0 < ctx.lf_sizes(0),
        0 <= c1 < ctx.lf_sizes(1),
        0 <= c2 < ctx.lf_sizes(2),
    ensures
        0 <= c0 * ctx.lf_sizes(2) + c2 < ctx.lf_sizes(0) * ctx.lf_sizes(2),
        c0 * ctx.lf_sizes(2) >= 0,
        (c0 * ctx.lf_sizes(2) + c2) * ctx.lf_sizes(1) >= 0,
        0 <= (c0 * ctx.lf_sizes(2) + c2) * ctx.lf_sizes(1) + c1 < ctx.lf_classes(),
{
    let a = ctx.lf_sizes(0);
    let b = ctx.lf_sizes(1);
    let c = ctx.lf_sizes(2);
    lemma_digit(c0, c2, a, c);
    lemma_digit(c0 * c + c2, c1, a * c, b);
    assert(a * c * b == a * b * c) by (nonlinear_arith);
}

fn lf_index_at(params: &HfCoeffParams<'_>, shifts: &[ChannelShift; 3], x: usize, y: usize) -> (r:
    usize)
    requires
        params.wf(),
        x < params.block_info.width,
        y < params.block_info.height,
        forall|c: int| 0 <= c < 3 ==> #[trigger] shifts@[c] == params.shift(c),
    ensures
        r == lf_index(*params, x as int, y as int),
        r < params.hf_block_ctx.lf_classes(),
{
    reveal(lf_index);
    let ctx = params.hf_block_ctx;
    proof {
        lemma_classes(*ctx);
    }
    match &params.lf_quant {
        None => 0,
        Some(grids) => {
            assert(grids@[0].wf() && grids@[1].wf() && grids@[2].wf());
            let q0: i32 = grids[0].get(shifts[0].hshift(x), shifts[0].vshift(y));
            let q1: i32 = grids[1].get(shifts[1].hshift(x), shifts[1].vshift(y));
            let q2: i32 = grids[2].get(shifts[2].hshift(x), shifts[2].vshift(y));
            let c0: usize = count_below(&ctx.lf_thresholds[0], q0);
            let c1: usize = count_below(&ctx.lf_thresholds[1], q1);
            let c2: usize = count_below(&ctx.lf_thresholds[2], q2);
            let n1: usize = ctx.lf_thresholds[1].len();
            let n2: usize = ctx.lf_thresholds[2].len();
            let total: usize = ctx.block_ctx_map.len();
            proof {
                lemma_lf_index(*ctx, c0 as int, c1 as int, c2 as int);
                lemma_sizes_fit(*ctx);
            }
            (c0 * (n2 + 1) + c2) * (n1 + 1) + c1
        },
    }
}

/// Each number of classes fits the map's length.
proof fn lemma_sizes_fit(ctx: HfBlockContext)
    requires
        ctx.wf(),
    ensures
        forall|c: int|
            0 <= c < 3 ==> #[trigger] ctx.lf_sizes(c) <= ctx.block_ctx_map@.len(),
{
    lemma_classes(ctx);
    let a = ctx.lf_sizes(0);
    let b = ctx.lf_sizes(1);
    let c = ctx.lf_sizes(2);
    assert(a * b * c >= a && a * b * c >= b && a * b * c >= c) by (nonlinear_arith)
        requires
            a >= 1,
            b >= 1,
            c >= 1,
    ;
}

fn block_cluster_at(
    params: &HfCoeffParams<'_>,
    t: TransformType,
    qf: i32,
    lf: usize,
    Ghost(x): Ghost<int>,
    Ghost(y): Ghost<int>,
    k: usize,
) -> (r: u8)
    requires
        params.wf(),
        k < 3,
        lf == lf_index(*params, x, y),
        lf < params.hf_block_ctx.lf_classes(),
    ensures
        r == block_cluster(*params, t, qf, x, y, k as int),
        r < params.clusters(),
{
    reveal(block_cluster);
    let ctx = params.hf_block_ctx;
    let total: usize = ctx.block_ctx_map.len();
    let hf: usize = count_factors(&ctx.qf_thresholds, qf);
    let order: usize = t.order_id() as usize;
    let ch: usize = k * 13 + order;
    let ghost h = ctx.hf_classes();
    let ghost l = ctx.lf_classes();
    proof {
        lemma_classes(*ctx);
        lemma_sizes_fit(*ctx);
        lemma_digit(ch as int, hf as int, 39, h);
        lemma_digit(ch * h + hf, lf as int, 39 * h, l);
        assert(39 * h <= 39 * h * l) by (nonlinear_arith)
            requires
                h >= 1,
                l >= 1,
        ;
        assert(h <= 39 * h);
    }
    let hf_classes: usize = ctx.qf_thresholds.len() + 1;
    let n0: usize = ctx.lf_thresholds[0].len() + 1;
    let n1: usize = ctx.lf_thresholds[1].len() + 1;
    let n2: usize = ctx.lf_thresholds[2].len() + 1;
    let lf_classes: usize = n0 * n1 * n2;
    let i: usize = (ch * hf_classes + hf) * lf_classes + lf;
    ctx.block_ctx_map[i]
}

/// Decodes the coefficients of one channel of a block.
fn decode_coeffs<R: SymbolSource>(
    source: &mut R,
    map: &Vec<u8>,
    base: usize,
    order: &Vec<(u8, u8)>,
    channel: usize,
    bx: usize,
    by: usize,
    t: TransformType,
    shift: u32,
    count: u32,
    updates: &mut Vec<HfUpdate>,
) -> (r: Result<(), VardctError>)
    requires
        base + COEFF_CONTEXTS <= map@.len(),
        order_fits(order@, t),
        shift < 32,
        1 <= count <= 63 * t.blocks(),
    ensures
        ({
            let run = coeffs_run::<R>(
                map@.subrange(base as int, base + COEFF_CONTEXTS),
                order@,
                BlockPlace { channel: channel as int, bx: bx as int, by: by as int, t },
                shift as int,
                0,
                count as int,
                few_nonzeros(count as int, t.blocks()),
                old(source).model(),
            );
            &&& r == run.0
            &&& final(source).model() == run.1
            &&& final(updates)@ == old(updates)@ + run.2
        }),
{
    let (w8, h8) = t.dct_select_size();
    let (blocks, log) = t.block_count();
    let transposed: bool = t.need_transpose();
    let total: usize = map.len();
    let ghost clusters = map@.subrange(base as int, base + COEFF_CONTEXTS);
    let ghost place = BlockPlace { channel: channel as int, bx: bx as int, by: by as int, t };
    let mut nonzeros: u32 = count;
    let mut prev: u32 = if count <= blocks * 4 {
        1
    } else {
        0
    };
    let ghost start = updates@;
    let ghost goal = coeffs_run::<R>(
        clusters,
        order@,
        place,
        shift as int,
        0,
        count as int,
        prev as int,
        source.model(),
    );
    let mut idx: usize = 0;
    let end: usize = order.len() - blocks as usize;
    while idx < end
        invariant
            idx <= end,
            total == map@.len(),
            base + COEFF_CONTEXTS <= map@.len(),
            order_fits(order@, t),
            order@.len() == 64 * blocks,
            end == 63 * blocks,
            blocks == t.blocks(),
            1 <= blocks <= 1024,
            1 <= w8 <= 32,
            w8 == t.size().0,
            shift < 32,
            1 <= nonzeros <= 63 * blocks,
            prev <= 1,
            transposed == t.transposed(),
            place == (BlockPlace { channel: channel as int, bx: bx as int, by: by as int, t }),
            clusters == map@.subrange(base as int, base + COEFF_CONTEXTS),
            start == old(updates)@,
            goal == coeffs_run::<R>(
                clusters,
                order@,
                place,
                shift as int,
                0,
                count as int,
                few_nonzeros(count as int, t.blocks()),
                old(source).model(),
            ),
            ({
                let rest = coeffs_run::<R>(
                    clusters,
                    order@,
                    place,
                    shift as int,
                    idx as int,
                    nonzeros as int,
                    prev as int,
                    source.model(),
                );
                &&& rest.0 == goal.0
                &&& rest.1 == goal.1
                &&& updates@ + rest.2 == start + goal.2
            }),
        decreases end - idx,
    {
        let ghost before = updates@;
        proof {
            let a = nonzeros - 1;
            let b = blocks as int;
            assert(a / b < 63) by (nonlinear_arith)
                requires
                    0 <= a < 63 * b,
                    b >= 1,
            ;
            let i = idx as int;
            assert(i / b < 63) by (nonlinear_arith)
                requires
                    0 <= i < 63 * b,
                    b >= 1,
            ;
        }
        let ctx: u32 = (nonzero_context_at(((nonzeros - 1) / blocks) as usize) + freq_context_at(
            idx / blocks as usize,
        )) * 2 + prev;
        assert(ctx == coeff_context(nonzeros as int, idx as int, blocks as int, prev as int));
        if ctx as usize >= COEFF_CONTEXTS {
            assert(updates@ + Seq::<HfUpdate>::empty() =~= updates@);
            return invalid("too many zeros in varblock HF coefficient");
        }
        assert(clusters[ctx as int] == map@[base + ctx]);
        let cluster: u8 = map[base + ctx as usize];
        let read = source.read_symbol(cluster);
        let u: u32 = match read {
            Err(e) => {
                assert(updates@ + Seq::<HfUpdate>::empty() =~= updates@);
                return Err(VardctError::Decoder(e));
            },
            Ok(u) => u,
        };
        if u == 0 {
            prev = 0;
        } else {
            let coord: (u8, u8) = order[blocks as usize + idx];
            assert(placed(order@[blocks + idx], t.transposed()).0 < 8 * t.size().0);
            let value: i32 = shifted_coeff(u, shift);
            let (dx, dy) = if transposed {
                (coord.1 as usize, coord.0 as usize)
            } else {
                (coord.0 as usize, coord.1 as usize)
            };
            let update = HfUpdate {
                channel,
                bx,
                by,
                dx,
                dy,
                block_width: w8 as usize * 8,
                value,
            };
            assert(update == update_at(place, coord, value));
            updates.push(update);
            prev = 1;
            nonzeros = nonzeros - 1;
            proof {
                let rest = coeffs_run::<R>(
                    clusters,
                    order@,
                    place,
                    shift as int,
                    idx + 1,
                    nonzeros as int,
                    1,
                    source.model(),
                ).2;
                assert(before + (seq![update] + rest) =~= before.push(update) + rest);
                assert(before + seq![update] =~= before.push(update));
            }
            if nonzeros == 0 {
                return Ok(());
            }
        }
        idx = idx + 1;
    }
    assert(updates@ + Seq::<HfUpdate>::empty() =~= updates@);
    Ok(())
}

/// Numbers of nonzero coefficients are at most 63 per cell.
pub open spec fn row_ok(row: Seq<u32>, len: int) -> bool {
    row.len() == len && forall|i: int| 0 <= i < row.len() ==> #[trigger] row[i] <= 63
}

/// Fills the cells of a block.
fn fill_row(row: &mut Vec<u32>, sx: usize, w8: usize, value: u32)
    requires
        sx + w8 <= old(row)@.len(),
    ensures
        final(row)@ == row_filled(old(row)@, sx as int, w8 as int, value),
{
    let ghost before = row@;
    let total: usize = row.len();
    let mut d: usize = 0;
    assert(row@ =~= row_filled(before, sx as int, 0, value));
    while d < w8
        invariant
            d <= w8,
            sx + w8 <= total,
            total == row@.len(),
            before.len() == total,
            row@ == row_filled(before, sx as int, d as int, value),
        decreases w8 - d,
    {
        row.set(sx + d, value);
        d = d + 1;
        assert(row@ =~= row_filled(before, sx as int, d as int, value));
    }
}

/// Whether the channel has no block of its own at a cell.
fn is_skipped(params: &HfCoeffParams<'_>, shift: ChannelShift, c: usize, x: usize, y: usize) -> (r:
    bool)
    requires
        params.wf(),
        c < 3,
        shift == params.shift(c as int),
        x < params.block_info.width,
        y < params.block_info.height,
    ensures
        r == params.skipped(c as int, x as int, y as int),
{
    if !shift.h_subsample && !shift.v_subsample {
        return false;
    }
    if (shift.h_subsample && x % 2 == 1) || (shift.v_subsample && y % 2 == 1) {
        return true;
    }
    match params.block_info.get(shift.hshift(x), shift.vshift(y)) {
        BlockInfo::Data { .. } => false,
        _ => true,
    }
}

fn predict(row: &Vec<u32>, sx: usize, sy: usize) -> (r: u32)
    requires
        row_ok(row@, row@.len() as int),
        sx < row@.len(),
    ensures
        r == predicted(row@, sx as int, sy as int),
        r <= 63,
{
    if sy == 0 {
        if sx == 0 {
            32
        } else {
            row[sx - 1]
        }
    } else if sx == 0 {
        row[sx]
    } else {
        assert(row@[sx as int] <= 63 && row@[sx - 1] <= 63);
        (row[sx] + row[sx - 1] + 1) / 2
    }
}

/// A context stays below the number of contexts.
proof fn lemma_context_fits(cluster: int, class: int, clusters: int)
    requires
        0 <= cluster < clusters,
        0 <= class <= 35,
    ensures
        0 <= class * clusters <= 35 * clusters,
        cluster + class * clusters < NONZERO_CONTEXTS * clusters,
        cluster * COEFF_CONTEXTS + NONZERO_CONTEXTS * clusters + COEFF_CONTEXTS
            <= CONTEXTS_PER_CLUSTER * clusters,
{
    assert(0 <= class * clusters <= 35 * clusters) by (nonlinear_arith)
        requires
            0 <= class <= 35,
            clusters >= 0,
    ;
}

/// Position of the cluster from which the number of nonzero coefficients is read.
fn count_position(
    params: &HfCoeffParams<'_>,
    cluster: u8,
    row: &Vec<u32>,
    sx: usize,
    sy: usize,
) -> (r: usize)
    requires
        params.wf(),
        cluster < params.clusters(),
        row_ok(row@, row@.len() as int),
        sx < row@.len(),
    ensures
        r == cluster + count_class(predicted(row@, sx as int, sy as int)) * params.clusters(),
        r < CONTEXTS_PER_CLUSTER * params.clusters(),
{
    let expected: u32 = predict(row, sx, sy);
    let class: u32 = if expected >= 8 {
        4 + expected / 2
    } else {
        expected
    };
    let clusters: u32 = params.hf_block_ctx.num_block_clusters;
    proof {
        lemma_context_fits(cluster as int, class as int, clusters as int);
    }
    (cluster as u32 + class * clusters) as usize
}

/// The number of nonzero coefficients per cell, rounded up.
fn per_cell(nonzeros: u32, blocks: u32) -> (r: u32)
    requires
        1 <= blocks <= 1024,
        nonzeros <= 63 * blocks,
    ensures
        r == (nonzeros + blocks - 1) / blocks as int,
        r <= 63,
{
    let ghost b = blocks as int;
    let ghost n = nonzeros as int;
    assert((n + b - 1) / b <= 63) by (nonlinear_arith)
        requires
            0 <= n <= 63 * b,
            b >= 1,
    ;
    (nonzeros + blocks - 1) / blocks
}

/// Decodes one channel of a block.
#[verifier::rlimit(40)]
fn decode_channel<R: SymbolSource>(
    source: &mut R,
    params: &HfCoeffParams<'_>,
    map: &Vec<u8>,
    shift: ChannelShift,
    t: TransformType,
    qf: i32,
    lf: usize,
    x: usize,
    y: usize,
    k: usize,
    row: &mut Vec<u32>,
    updates: &mut Vec<HfUpdate>,
) -> (r: Result<(), VardctError>)
    requires
        params.wf(),
        map@.len() == CONTEXTS_PER_CLUSTER * params.clusters(),
        k < 3,
        shift == params.shift(channel_of(k as int)),
        x < params.block_info.width,
        y < params.block_info.height,
        params.channel_fits(channel_of(k as int), x as int, y as int, t),
        lf == lf_index(*params, x as int, y as int),
        lf < params.hf_block_ctx.lf_classes(),
        row_ok(old(row)@, params.row_len(channel_of(k as int))),
    ensures
        row_ok(final(row)@, params.row_len(channel_of(k as int))),
        ({
            let (run, row2) = channel_run::<R>(
                *params,
                map@,
                t,
                qf,
                x as int,
                y as int,
                k as int,
                old(source).model(),
                old(row)@,
            );
            &&& r == run.0
            &&& final(source).model() == run.1
            &&& final(updates)@ == old(updates)@ + run.2
            &&& final(row)@ == row2
        }),
{
    reveal(channel_run);
    let ghost nothing = Seq::<HfUpdate>::empty();
    assert(updates@ + nothing =~= updates@);
    let c: usize = if k == 0 {
        1
    } else if k == 1 {
        0
    } else {
        2
    };
    if is_skipped(params, shift, c, x, y) {
        return Ok(());
    }
    let sx: usize = shift.hshift(x);
    let sy: usize = shift.vshift(y);
    let (w8, h8) = t.dct_select_size();
    let (blocks, log) = t.block_count();
    let cluster: u8 = block_cluster_at(params, t, qf, lf, Ghost(x as int), Ghost(y as int), k);
    let ctx: usize = count_position(params, cluster, row, sx, sy);
    let read = source.read_symbol(map[ctx]);
    let nonzeros: u32 = match read {
        Err(e) => {
            return Err(VardctError::Decoder(e));
        },
        Ok(v) => v,
    };
    if nonzeros > 63 * blocks {
        return invalid("non_zeros too large");
    }
    let per_block: u32 = per_cell(nonzeros, blocks);
    fill_row(row, sx, w8 as usize, per_block);
    if nonzeros == 0 {
        return Ok(());
    }
    let clusters: u32 = params.hf_block_ctx.num_block_clusters;
    proof {
        lemma_context_fits(cluster as int, 0, clusters as int);
    }
    let base: usize = cluster as usize * COEFF_CONTEXTS + NONZERO_CONTEXTS * clusters as usize;
    let order: usize = t.order_id() as usize;
    decode_coeffs(
        source,
        map,
        base,
        &params.hf_pass.orders[order * 3 + c],
        c,
        sx,
        sy,
        t,
        params.coeff_shift,
        nonzeros,
        updates,
    )
}

pub open spec fn row_views(rows: Seq<Vec<u32>>) -> Seq<Seq<u32>> {
    Seq::new(rows.len(), |c: int| rows[c]@)
}

pub open spec fn rows_ok(params: HfCoeffParams, rows: Seq<Seq<u32>>) -> bool {
    &&& rows.len() == 3
    &&& forall|c: int| 0 <= c < 3 ==> row_ok(#[trigger] rows[c], params.row_len(c))
}

/// Decodes all channels of a block.
fn decode_channels<R: SymbolSource>(
    source: &mut R,
    params: &HfCoeffParams<'_>,
    map: &Vec<u8>,
    shifts: &[ChannelShift; 3],
    t: TransformType,
    qf: i32,
    x: usize,
    y: usize,
    rows: &mut Vec<Vec<u32>>,
    updates: &mut Vec<HfUpdate>,
) -> (r: Result<(), VardctError>)
    requires
        params.wf(),
        map@.len() == CONTEXTS_PER_CLUSTER * params.clusters(),
        forall|c: int| 0 <= c < 3 ==> #[trigger] shifts@[c] == params.shift(c),
        x < params.block_info.width,
        y < params.block_info.height,
        forall|c: int| 0 <= c < 3 ==> params.channel_fits(c, x as int, y as int, t),
        rows_ok(*params, row_views(old(rows)@)),
    ensures
        rows_ok(*params, row_views(final(rows)@)),
        ({
            let (run, rows2) = channels_run::<R>(
                *params,
                map@,
                t,
                qf,
                x as int,
                y as int,
                0,
                old(source).model(),
                row_views(old(rows)@),
            );
            &&& r == run.0
            &&& final(source).model() == run.1
            &&& final(updates)@ == old(updates)@ + run.2
            &&& row_views(final(rows)@) == rows2
        }),
{
    let lf: usize = lf_index_at(params, shifts, x, y);
    let ghost start = updates@;
    let ghost goal = channels_run::<R>(
        *params,
        map@,
        t,
        qf,
        x as int,
        y as int,
        0,
        source.model(),
        row_views(rows@),
    );
    let mut k: usize = 0;
    while k < 3
        invariant
            k <= 3,
            params.wf(),
            map@.len() == CONTEXTS_PER_CLUSTER * params.clusters(),
            forall|c: int| 0 <= c < 3 ==> #[trigger] shifts@[c] == params.shift(c),
            x < params.block_info.width,
            y < params.block_info.height,
            forall|c: int| 0 <= c < 3 ==> params.channel_fits(c, x as int, y as int, t),
            lf == lf_index(*params, x as int, y as int),
            lf < params.hf_block_ctx.lf_classes(),
            rows_ok(*params, row_views(rows@)),
            start == old(updates)@,
            goal == channels_run::<R>(
                *params,
                map@,
                t,
                qf,
                x as int,
                y as int,
                0,
                old(source).model(),
                row_views(old(rows)@),
            ),
            ({
                let (rest, rows2) = channels_run::<R>(
                    *params,
                    map@,
                    t,
                    qf,
                    x as int,
                    y as int,
                    k as int,
                    source.model(),
                    row_views(rows@),
                );
                &&& rest.0 == goal.0.0
                &&& rest.1 == goal.0.1
                &&& updates@ + rest.2 == start + goal.0.2
                &&& rows2 == goal.1
            }),
        decreases 3 - k,
    {
        let c: usize = if k == 0 {
            1
        } else if k == 1 {
            0
        } else {
            2
        };
        let ghost before = updates@;
        let ghost views = row_views(rows@);
        let ghost m = source.model();
        assert(views[c as int] == rows@[c as int]@);
        assert(params.channel_fits(c as int, x as int, y as int, t));
        let r = decode_channel(
            source,
            params,
            map,
            shifts[c],
            t,
            qf,
            lf,
            x,
            y,
            k,
            &mut rows[c],
            updates,
        );
        proof {
            let (run, row2) = channel_run::<R>(
                *params,
                map@,
                t,
                qf,
                x as int,
                y as int,
                k as int,
                m,
                views[c as int],
            );
            assert(row_views(rows@) =~= views.update(c as int, row2));
            let rest = channels_run::<R>(
                *params,
                map@,
                t,
                qf,
                x as int,
                y as int,
                k + 1,
                run.1,
                row_views(rows@),
            ).0.2;
            assert(before + (run.2 + rest) =~= (before + run.2) + rest);
        }
        if r.is_err() {
            return r;
        }
        k = k + 1;
    }
    assert(updates@ + Seq::<HfUpdate>::empty() =~= updates@);
    Ok(())
}

/// A block and the coefficients that were decoded of it.
pub struct HfCell {
    pub x: usize,
    pub y: usize,
    pub dct_select: TransformType,
    pub hf_mul: i32,
    /// Whether all of it was decoded.
    pub complete: bool,
    pub updates: Vec<HfUpdate>,
}

impl View for HfCell {
    type V = CellModel;

    open spec fn view(&self) -> CellModel {
        CellModel {
            x: self.x,
            y: self.y,
            dct_select: self.dct_select,
            hf_mul: self.hf_mul,
            complete: self.complete,
            updates: self.updates@,
        }
    }
}

pub open spec fn cell_views(cells: Seq<HfCell>) -> Seq<CellModel> {
    Seq::new(cells.len(), |i: int| cells[i]@)
}

/// Decodes the blocks of a group in row order.
fn decode_cells<R: SymbolSource>(
    source: &mut R,
    params: &HfCoeffParams<'_>,
    map: &Vec<u8>,
    shifts: &[ChannelShift; 3],
    rows: &mut Vec<Vec<u32>>,
    cells: &mut Vec<HfCell>,
) -> (r: Result<(), VardctError>)
    requires
        params.wf(),
        map@.len() == CONTEXTS_PER_CLUSTER * params.clusters(),
        forall|c: int| 0 <= c < 3 ==> #[trigger] shifts@[c] == params.shift(c),
        rows_ok(*params, row_views(old(rows)@)),
        old(cells)@.len() == 0,
    ensures
        ({
            let run = cells_run::<R>(
                *params,
                map@,
                0,
                0,
                old(source).model(),
                row_views(old(rows)@),
            );
            &&& r == run.0
            &&& final(source).model() == run.1
            &&& cell_views(final(cells)@) == run.2
        }),
{
    let width: usize = params.block_info.width;
    let height: usize = params.block_info.height;
    let ghost goal = cells_run::<R>(*params, map@, 0, 0, source.model(), row_views(rows@));
    let mut y: usize = 0;
    let mut x: usize = 0;
    assert(cell_views(cells@) + goal.2 =~= goal.2);
    while y < height
        invariant
            y <= height,
            x <= width,
            width == params.block_info.width,
            height == params.block_info.height,
            params.wf(),
            map@.len() == CONTEXTS_PER_CLUSTER * params.clusters(),
            forall|c: int| 0 <= c < 3 ==> #[trigger] shifts@[c] == params.shift(c),
            rows_ok(*params, row_views(rows@)),
            goal == cells_run::<R>(
                *params,
                map@,
                0,
                0,
                old(source).model(),
                row_views(old(rows)@),
            ),
            ({
                let rest = cells_run::<R>(
                    *params,
                    map@,
                    x as int,
                    y as int,
                    source.model(),
                    row_views(rows@),
                );
                &&& rest.0 == goal.0
                &&& rest.1 == goal.1
                &&& cell_views(cells@) + rest.2 == goal.2
            }),
        decreases height - y, width - x,
    {
        if x >= width {
            x = 0;
            y = y + 1;
        } else {
            assert(params.cell_fits(x as int, y as int));
            match params.block_info.get(x, y) {
                BlockInfo::Data { dct_select, hf_mul } => {
                    let mut updates: Vec<HfUpdate> = Vec::new();
                    let ghost before = cells@;
                    let ghost m = source.model();
                    let ghost views = row_views(rows@);
                    let r = decode_channels(
                        source,
                        params,
                        map,
                        shifts,
                        dct_select,
                        hf_mul,
                        x,
                        y,
                        rows,
                        &mut updates,
                    );
                    let cell = HfCell { x, y, dct_select, hf_mul, complete: r.is_ok(), updates };
                    cells.push(cell);
                    proof {
                        let (run, rows2) = channels_run::<R>(
                            *params,
                            map@,
                            dct_select,
                            hf_mul,
                            x as int,
                            y as int,
                            0,
                            m,
                            views,
                        );
                        assert(Seq::<HfUpdate>::empty() + run.2 =~= run.2);
                        assert(cell@.updates =~= run.2);
                        let model = CellModel {
                            x,
                            y,
                            dct_select,
                            hf_mul,
                            complete: run.0 is Ok,
                            updates: run.2,
                        };
                        assert(cell@ == model);
                        assert(cell_views(cells@) =~= cell_views(before).push(model));
                        let rest = cells_run::<R>(
                            *params,
                            map@,
                            x + 1,
                            y as int,
                            run.1,
                            rows2,
                        ).2;
                        assert(cell_views(before) + (seq![model] + rest) =~= cell_views(
                            before,
                        ).push(model) + rest);
                        assert(cell_views(before) + seq![model] =~= cell_views(before).push(
                            model,
                        ));
                    }
                    if r.is_err() {
                        return r;
                    }
                },
                _ => {},
            }
            x = x + 1;
        }
    }
    assert(cell_views(cells@) + Seq::<CellModel>::empty() =~= cell_views(cells@));
    Ok(())
}

/// Bits that a preset takes.
fn preset_bits(n: u32) -> (r: usize)
    requires
        1 <= n <= 0x8000_0000,
    ensures
        r == bits_below(n as int, 0),
{
    let mut k: usize = 0;
    let mut unit: u64 = 1;
    proof {
        lemma2_to64();
    }
    while unit < n as u64
        invariant
            1 <= n <= 0x8000_0000,
            k <= 31,
            unit == pow2(k as nat),
            bits_below(n as int, 0) == bits_below(n as int, k as int),
        decreases 32 - k,
    {
        proof {
            lemma2_to64();
            if k == 31 {
                assert(unit == 0x8000_0000);
            }
            crate::math::lemma_pow2_mono(k as nat, 30);
            lemma_pow2_unfold((k + 1) as nat);
        }
        unit = unit * 2;
        k = k + 1;
    }
    k
}

/// Decodes the coefficients of a group. What was decoded before an error is kept.
pub fn decode_group<R: SymbolSource>(source: &mut R, params: &HfCoeffParams<'_>) -> (r: (
    Result<(), VardctError>,
    Vec<HfCell>,
))
    requires
        params.wf(),
    ensures
        ({
            let run = group_run::<R>(*params, old(source).model());
            &&& r.0 == run.0
            &&& final(source).model() == run.1
            &&& cell_views(r.1@) == run.2
        }),
{
    let mut cells: Vec<HfCell> = Vec::new();
    assert(cell_views(cells@) =~= Seq::<CellModel>::empty());
    let bits: usize = preset_bits(params.num_hf_presets);
    let preset: u32 = match source.read_bits(bits) {
        Err(e) => {
            return (Err(VardctError::Bitstream(e)), cells);
        },
        Ok(v) => v,
    };
    if preset >= params.num_hf_presets {
        return (invalid("selected HF preset out of bounds"), cells);
    }
    match source.begin() {
        Err(e) => {
            return (Err(VardctError::Decoder(e)), cells);
        },
        Ok(_) => {},
    }
    let shifts: [ChannelShift; 3] = [
        ChannelShift::from_jpeg_upsampling(&params.jpeg_upsampling, 0),
        ChannelShift::from_jpeg_upsampling(&params.jpeg_upsampling, 1),
        ChannelShift::from_jpeg_upsampling(&params.jpeg_upsampling, 2),
    ];
    let width: usize = params.block_info.width;
    let height: usize = params.block_info.height;
    let n0: usize = shifts[0].shift_size(width, height).0;
    let n1: usize = shifts[1].shift_size(width, height).0;
    let n2: usize = shifts[2].shift_size(width, height).0;
    let bytes: usize = 4 * (n0 + n1 + n2);
    if let Some(left) = params.tracker {
        if bytes > left {
            return (Err(VardctError::Buffer(OutOfMemory(bytes))), cells);
        }
    }
    let mut rows: Vec<Vec<u32>> = Vec::new();
    rows.push(vec![0; n0]);
    rows.push(vec![0; n1]);
    rows.push(vec![0; n2]);
    assert(row_views(rows@) =~= zero_rows(*params)) by {
        assert(rows@[0]@ =~= zero_rows(*params)[0]);
        assert(rows@[1]@ =~= zero_rows(*params)[1]);
        assert(rows@[2]@ =~= zero_rows(*params)[2]);
    }
    let map: Vec<u8> = preset_map(params, preset);
    let r = decode_cells(source, params, &map, &shifts, &mut rows, &mut cells);
    if r.is_err() {
        return (r, cells);
    }
    match source.finalize() {
        Err(e) => (Err(VardctError::Decoder(e)), cells),
        Ok(_) => (Ok(()), cells),
    }
}

/// The context clusters of a preset.
fn preset_map(params: &HfCoeffParams<'_>, preset: u32) -> (r: Vec<u8>)
    requires
        params.wf(),
        preset < params.num_hf_presets,
    ensures
        r@ == params.hf_pass.cluster_map@.subrange(
            CONTEXTS_PER_CLUSTER * params.clusters() * preset,
            CONTEXTS_PER_CLUSTER * params.clusters() * preset + CONTEXTS_PER_CLUSTER
                * params.clusters(),
        ),
        r@.len() == CONTEXTS_PER_CLUSTER * params.clusters(),
{
    let all = &params.hf_pass.cluster_map;
    let total: usize = all.len();
    let size: usize = CONTEXTS_PER_CLUSTER * params.hf_block_ctx.num_block_clusters as usize;
    proof {
        let s = size as int;
        let p = preset as int;
        let n = params.num_hf_presets as int;
        assert(s * p + s <= s * n && s * p >= 0) by (nonlinear_arith)
            requires
                0 <= p,
                p + 1 <= n,
                s >= 0,
        ;
    }
    let start: usize = size * preset as usize;
    let mut r: Vec<u8> = Vec::new();
    let mut i: usize = 0;
    while i < size
        invariant
            i <= size,
            start + size <= total,
            total == all@.len(),
            r@ == all@.subrange(start as int, start + i),
        decreases size - i,
    {
        r.push(all[start + i]);
        i = i + 1;
        assert(r@ =~= all@.subrange(start as int, start + i));
    }
    r
}

} // verus!
