//! What coded values of a block stand for.
use crate::jxl::block::{channel_shift, shifted, shifted_len, TransformType};
use crate::jxl::hf_coeff::{
    bits_below, block_cluster, channel_of, coeff_context, coeff_value, coeffs_run, count_class,
    factors_below, few_nonzeros, hf_class, lf_class, lf_index, placed, predicted,
    thresholds_below, unpack_signed_spec, update_at, BlockPlace, HfCoeffParams, HfUpdate,
    COEFF_CONTEXTS,
};
use crate::jxl::hf_tables::{
    freq_context, lemma_freq_steps, lemma_nonzero_steps, nonzero_context,
};
use crate::jxl::symbols::SymbolSource;
use vstd::arithmetic::power2::{lemma2_to64, pow2};
use vstd::prelude::*;

verus! {

/// Coded values stand for 0, -1, 1, -2, 2 and so on: every number has one.
pub proof fn lemma_signed(n: int)
    requires
        0 <= n < 0x8000_0000,
    ensures
        unpack_signed_spec((2 * n) as u32) == n,
        unpack_signed_spec((2 * n + 1) as u32) == -1 - n,
{
}

/// Without a shift a coefficient is the number that is coded; a shift by one doubles it.
pub proof fn lemma_coefficient(n: int)
    requires
        0 <= n < 0x4000_0000,
    ensures
        coeff_value((2 * n) as u32, 0) == n,
        coeff_value((2 * n + 1) as u32, 0) == -1 - n,
        coeff_value((2 * n) as u32, 1) == n + n,
        coeff_value((2 * n + 1) as u32, 1) == -2 - n - n,
{
    lemma2_to64();
    lemma_signed(n);
    assert(pow2(0) == 1);
    assert(n * pow2(0) == n && (-1 - n) * pow2(0) == -1 - n) by (nonlinear_arith)
        requires
            pow2(0) == 1,
    ;
    assert(n * pow2(1) == n + n && (-1 - n) * pow2(1) == -2 - n - n) by (nonlinear_arith)
        requires
            pow2(1) == 2,
    ;
}

/// The number of coefficients that is expected lies between those of the neighbours.
pub proof fn lemma_predicted_between(row: Seq<u32>, sx: int, sy: int)
    requires
        0 <= sx < row.len(),
        0 <= sy,
    ensures
        ({
            let p = predicted(row, sx, sy);
            &&& sx == 0 && sy == 0 ==> p == 32
            &&& sx > 0 && sy == 0 ==> p == row[sx - 1]
            &&& sx == 0 && sy > 0 ==> p == row[sx]
            &&& sx > 0 && sy > 0 ==> 0 <= 2 * p - (row[sx] + row[sx - 1]) <= 1
        }),
{
}

/// Counts up to eight have classes of their own; from eight on two share one. Classes never fall.
pub proof fn lemma_count_class(p: int)
    requires
        0 <= p,
    ensures
        p <= 8 ==> count_class(p) == p,
        p >= 8 ==> count_class(p + 2) == count_class(p) + 1,
        count_class(p) <= count_class(p + 1) <= count_class(p) + 1,
        p <= 63 ==> count_class(p) <= 35,
{
}

/// Luma comes first, then the two channels of color, each once.
pub proof fn lemma_channel_order(k: int)
    requires
        0 <= k < 3,
    ensures
        channel_of(channel_of(k)) == k,
        channel_of(0) == 1,
        channel_of(2) == 2,
{
}

/// A block starts out with few coefficients if at most one in sixteen is left.
pub proof fn lemma_few(nonzeros: int, blocks: int)
    requires
        0 <= nonzeros,
        1 <= blocks,
    ensures
        (few_nonzeros(nonzeros, blocks) == 1) == (16 * nonzeros <= 64 * blocks),
        (few_nonzeros(nonzeros, blocks) == 0) == (16 * nonzeros > 64 * blocks),
{
}

/// Two coefficients of a small block share a context only if they agree on whether the one before
/// was zero.
pub proof fn lemma_context_parity(nonzeros: int, idx: int, prev: int)
    requires
        1 <= nonzeros <= 63,
        0 <= idx < 63,
        0 <= prev <= 1,
    ensures
        coeff_context(nonzeros, idx, 1, prev) % 2 == prev,
        nonzeros == 1 && idx <= 15 ==> coeff_context(nonzeros, idx, 1, prev) == 2 * idx + prev,
        coeff_context(nonzeros, idx, 1, prev) <= 473,
{
    assert((nonzeros - 1) / 1 == nonzeros - 1);
    assert(idx / 1 == idx);
    lemma_freq_steps(idx);
    lemma_nonzero_steps(nonzeros - 1);
    let a = nonzero_context(nonzeros - 1);
    let b = freq_context(idx);
    assert(a <= 206) by {
        if nonzeros - 1 >= 32 {
        } else if nonzeros - 1 >= 20 {
        }
    }
}

proof fn lemma_thresholds(t: Seq<i32>, n: nat, q: int, r: int)
    requires
        n <= t.len(),
        q <= r,
    ensures
        0 <= thresholds_below(t, n, q) <= thresholds_below(t, n, r) <= n,
        (forall|i: int| 0 <= i < n ==> #[trigger] t[i] < q) ==> thresholds_below(t, n, q) == n,
        (forall|i: int| 0 <= i < n ==> #[trigger] t[i] >= q) ==> thresholds_below(t, n, q) == 0,
    decreases n,
{
    if n > 0 {
        lemma_thresholds(t, (n - 1) as nat, q, r);
    }
}

/// The class of a value never falls as the value grows; it is the first where no threshold lies
/// below the value, and the last where all do.
pub proof fn lemma_class_grows(t: Seq<i32>, q: int, r: int)
    requires
        q <= r,
    ensures
        0 <= lf_class(t, q) <= lf_class(t, r) <= t.len(),
        (forall|i: int| 0 <= i < t.len() ==> #[trigger] t[i] < q) ==> lf_class(t, q) == t.len(),
        (forall|i: int| 0 <= i < t.len() ==> #[trigger] t[i] >= q) ==> lf_class(t, q) == 0,
{
    lemma_thresholds(t, t.len(), q, r);
}

/// The same for factors.
pub proof fn lemma_factor_class_grows(t: Seq<u32>, n: nat, q: i32, r: i32)
    requires
        n <= t.len(),
        q <= r,
    ensures
        0 <= factors_below(t, n, q) <= factors_below(t, n, r) <= n,
        (forall|i: int| 0 <= i < n ==> (#[trigger] t[i] as i32) < q) ==> factors_below(t, n, q)
            == n,
        (forall|i: int| 0 <= i < n ==> #[trigger] t[i] as i32 >= q) ==> factors_below(t, n, q)
            == 0,
    decreases n,
{
    if n > 0 {
        lemma_factor_class_grows(t, (n - 1) as nat, q, r);
    }
}

/// As many bits as number the choices, and no more.
pub proof fn lemma_bits(n: int, k: int)
    requires
        1 <= n <= 0x8000_0000,
        0 <= k <= 31,
        k == 0 || pow2((k - 1) as nat) < n,
    ensures
        ({
            let b = bits_below(n, k);
            &&& k <= b <= 31
            &&& n <= pow2(b as nat)
            &&& b == 0 || pow2((b - 1) as nat) < n
        }),
    decreases 31 - k,
{
    lemma2_to64();
    if pow2(k as nat) < n {
        if k == 31 {
        } else {
            lemma_bits(n, k + 1);
        }
    }
}

// ---- transforms ----
/// Rows and columns of a transform in pixels, as its name has them.
pub open spec fn named_size(t: TransformType) -> (int, int) {
    match t {
        TransformType::Dct16 => (16, 16),
        TransformType::Dct32 => (32, 32),
        TransformType::Dct16x8 => (16, 8),
        TransformType::Dct8x16 => (8, 16),
        TransformType::Dct32x8 => (32, 8),
        TransformType::Dct8x32 => (8, 32),
        TransformType::Dct32x16 => (32, 16),
        TransformType::Dct16x32 => (16, 32),
        TransformType::Dct64 => (64, 64),
        TransformType::Dct64x32 => (64, 32),
        TransformType::Dct32x64 => (32, 64),
        TransformType::Dct128 => (128, 128),
        TransformType::Dct128x64 => (128, 64),
        TransformType::Dct64x128 => (64, 128),
        TransformType::Dct256 => (256, 256),
        TransformType::Dct256x128 => (256, 128),
        TransformType::Dct128x256 => (128, 256),
        _ => (8, 8),
    }
}

/// Transforms cover as many blocks as their names say, width first; all that are smaller than a
/// block cover one.
pub proof fn lemma_named_size(t: TransformType)
    ensures
        8 * t.size().0 == named_size(t).1,
        8 * t.size().1 == named_size(t).0,
{
}

/// Two transforms of more than one block share an order exactly if one is the other on its side, or
/// the other itself.
pub proof fn lemma_shared_order(t: TransformType, u: TransformType)
    requires
        t.size() != (1int, 1int),
        u.size() != (1int, 1int),
    ensures
        (t.order() == u.order()) == (t.size() == u.size() || t.size() == (
            u.size().1,
            u.size().0,
        )),
        2 <= t.order() <= 12,
{
}

/// A transform that is not square is transposed exactly if it is the higher of the two.
pub proof fn lemma_transposed_higher(t: TransformType)
    ensures
        t.size().0 != t.size().1 ==> t.transposed() == (named_size(t).0 > named_size(t).1),
        t.size().0 == t.size().1 && t.size().0 > 1 ==> t.transposed(),
        t == TransformType::Dct8 ==> t.transposed(),
{
}

// ---- subsampling ----
/// A channel is halved in a direction only where another one is not: never all three, and none
/// where no channel has more samples than the others.
pub proof fn lemma_shift_shared(up: Seq<u32>, c: int)
    requires
        up.len() == 3,
        0 <= c < 3,
        forall|k: int| 0 <= k < 3 ==> #[trigger] up[k] <= 3,
    ensures
        ({
            let s = channel_shift(up, c);
            &&& up[c] == 1 ==> !s.h_subsample && !s.v_subsample
            &&& up[c] == 2 ==> !s.h_subsample && s.v_subsample == s.has_v_subsample
            &&& up[c] == 3 ==> !s.v_subsample && s.h_subsample == s.has_h_subsample
            &&& up[c] == 0 ==> s.h_subsample == s.has_h_subsample && s.v_subsample
                == s.has_v_subsample
            &&& up[0] == 0 && up[1] == 0 && up[2] == 0 ==> !s.has_h_subsample
                && !s.has_v_subsample
            &&& up[c] == 1 ==> s.has_h_subsample && s.has_v_subsample
            &&& up[c] == 2 ==> s.has_h_subsample
            &&& up[c] == 3 ==> s.has_v_subsample
        }),
{
    assert(up[c] == up[c]);
    let u = up[c];
}

/// A halved length has room for every halved position, and a length that goes with it for twice as
/// many.
pub proof fn lemma_halved(n: int, x: int, any: bool, own: bool)
    requires
        0 <= x < n,
        own ==> any,
    ensures
        shifted(x, own) < shifted_len(n, any, own),
        own ==> 2 * shifted(x, own) <= x <= 2 * shifted(x, own) + 1,
        !own ==> shifted(x, own) == x,
        shifted_len(n, true, false) == 2 * shifted_len(n, true, true),
        n <= shifted_len(n, any, false) <= n + 1,
        !any ==> shifted_len(n, any, own) == n,
{
}

// ---- contexts of blocks ----
/// Blocks are told apart by channel, order, factor and low frequencies, the last of which counts
/// fastest.
pub proof fn lemma_block_context(
    p: HfCoeffParams,
    t: TransformType,
    qf: i32,
    x: int,
    y: int,
    k: int,
    i: int,
)
    requires
        0 <= lf_index(p, x, y) < p.hf_block_ctx.lf_classes(),
        0 <= hf_class(p, qf) < p.hf_block_ctx.hf_classes(),
        0 <= k < 3,
        0 <= i,
        i % p.hf_block_ctx.lf_classes() == lf_index(p, x, y),
        i / p.hf_block_ctx.lf_classes() % p.hf_block_ctx.hf_classes() == hf_class(p, qf),
        i / p.hf_block_ctx.lf_classes() / p.hf_block_ctx.hf_classes() % 13 == t.order(),
        i / p.hf_block_ctx.lf_classes() / p.hf_block_ctx.hf_classes() / 13 == k,
    ensures
        block_cluster(p, t, qf, x, y, k) == p.hf_block_ctx.block_ctx_map@[i],
{
    reveal(block_cluster);
    let lf = p.hf_block_ctx.lf_classes();
    let hf = p.hf_block_ctx.hf_classes();
    let a = i / lf;
    let b = a / hf;
    vstd::arithmetic::div_mod::lemma_fundamental_div_mod(i, lf);
    vstd::arithmetic::div_mod::lemma_fundamental_div_mod(a, hf);
    assert(b == k * 13 + t.order());
    assert(hf * b == b * hf) by (nonlinear_arith);
    assert(lf * a == a * lf) by (nonlinear_arith);
}

/// Where two of the channels have low frequencies of the first class, the class of the third one
/// tells the index: luma counts fastest, then the last channel, then the first.
pub proof fn lemma_lf_digits(p: HfCoeffParams, x: int, y: int)
    requires
        p.lf_quant is Some,
    ensures
        ({
            let g = p.lf_quant->Some_0@;
            let t = p.hf_block_ctx.lf_thresholds@;
            let c0 = lf_class(t[0]@, g[0].at(p.sx(0, x), p.sy(0, y)) as int);
            let c1 = lf_class(t[1]@, g[1].at(p.sx(1, x), p.sy(1, y)) as int);
            let c2 = lf_class(t[2]@, g[2].at(p.sx(2, x), p.sy(2, y)) as int);
            &&& c0 == 0 && c2 == 0 ==> lf_index(p, x, y) == c1
            &&& c0 == 0 && c1 == 0 ==> lf_index(p, x, y) == c2 * (t[1]@.len() + 1)
            &&& c1 == 0 && c2 == 0 ==> lf_index(p, x, y) == c0 * (t[1]@.len() + 1) * (t[2]@.len()
                + 1)
        }),
{
    let g = p.lf_quant->Some_0@;
    let t = p.hf_block_ctx.lf_thresholds@;
    let c0 = lf_class(t[0]@, g[0].at(p.sx(0, x), p.sy(0, y)) as int);
    let c1 = lf_class(t[1]@, g[1].at(p.sx(1, x), p.sy(1, y)) as int);
    let c2 = lf_class(t[2]@, g[2].at(p.sx(2, x), p.sy(2, y)) as int);
    let a = t[1]@.len() as int + 1;
    let b = t[2]@.len() as int + 1;
    let i = lf_index(p, x, y);
    reveal(lf_index);
    assert(p.hf_block_ctx.lf_sizes(1) == a && p.hf_block_ctx.lf_sizes(2) == b);
    assert(i == (c0 * b + c2) * a + c1);
    if c0 == 0 && c2 == 0 {
        assert(i == c1) by (nonlinear_arith)
            requires
                i == (c0 * b + c2) * a + c1,
                c0 == 0,
                c2 == 0,
        ;
    }
    if c0 == 0 && c1 == 0 {
        assert(i == c2 * a) by (nonlinear_arith)
            requires
                i == (c0 * b + c2) * a + c1,
                c0 == 0,
                c1 == 0,
        ;
    }
    if c1 == 0 && c2 == 0 {
        assert(i == c0 * a * b) by (nonlinear_arith)
            requires
                i == (c0 * b + c2) * a + c1,
                c1 == 0,
                c2 == 0,
        ;
    }
}

/// A coefficient that was read is put where the order has it, behind the lowest frequencies.
pub open spec fn comes_from(
    u: HfUpdate,
    place: BlockPlace,
    order: Seq<(u8, u8)>,
    first: int,
) -> bool {
    exists|j: int|
        first <= j < order.len() && (u.dx as int, u.dy as int) == #[trigger] placed(
            order[j],
            place.t.transposed(),
        )
}

/// Reading the coefficients of a block changes that block of that channel alone, never its lowest
/// frequencies, and no more coefficients than were announced.
pub proof fn lemma_updates_placed<R: SymbolSource>(
    clusters: Seq<u8>,
    order: Seq<(u8, u8)>,
    place: BlockPlace,
    shift: int,
    idx: int,
    nonzeros: int,
    prev: int,
    m: R::Model,
)
    requires
        0 <= idx,
        1 <= nonzeros,
        0 <= place.channel < 3,
        0 <= place.bx <= usize::MAX,
        0 <= place.by <= usize::MAX,
    ensures
        ({
            let list = coeffs_run::<R>(clusters, order, place, shift, idx, nonzeros, prev, m).2;
            &&& list.len() <= nonzeros
            &&& forall|i: int|
                0 <= i < list.len() ==> {
                    let u = #[trigger] list[i];
                    &&& comes_from(u, place, order, place.t.blocks() + idx)
                    &&& u.channel == place.channel && u.bx == place.bx && u.by == place.by
                    &&& u.block_width == named_size(place.t).1
                }
        }),
    decreases order.len() - idx,
{
    let blocks = place.t.blocks();
    let list = coeffs_run::<R>(clusters, order, place, shift, idx, nonzeros, prev, m).2;
    lemma_named_size(place.t);
    if idx >= order.len() - blocks || blocks <= 0 {
    } else {
        let ctx = coeff_context(nonzeros, idx, blocks, prev);
        if ctx >= COEFF_CONTEXTS {
        } else {
            match R::symbol(m, clusters[ctx]) {
                (Err(_), _) => {},
                (Ok(u), m2) => {
                    if u == 0 {
                        lemma_updates_placed::<R>(
                            clusters,
                            order,
                            place,
                            shift,
                            idx + 1,
                            nonzeros,
                            0,
                            m2,
                        );
                    } else {
                        let update = update_at(place, order[blocks + idx], coeff_value(u, shift));
                        let d = placed(order[blocks + idx], place.t.transposed());
                        assert((update.dx as int, update.dy as int) == d);
                        assert(comes_from(update, place, order, blocks + idx));
                        if nonzeros == 1 {
                            assert(list =~= seq![update]);
                        } else {
                            lemma_updates_placed::<R>(
                                clusters,
                                order,
                                place,
                                shift,
                                idx + 1,
                                nonzeros - 1,
                                1,
                                m2,
                            );
                            let rest = coeffs_run::<R>(
                                clusters,
                                order,
                                place,
                                shift,
                                idx + 1,
                                nonzeros - 1,
                                1,
                                m2,
                            ).2;
                            assert(list =~= seq![update] + rest);
                            assert forall|i: int| 0 <= i < list.len() implies comes_from(
                                #[trigger] list[i],
                                place,
                                order,
                                blocks + idx,
                            ) && list[i].channel == place.channel && list[i].bx == place.bx
                                && list[i].by == place.by && list[i].block_width == named_size(
                                place.t,
                            ).1 by {
                                if i > 0 {
                                    assert(list[i] == rest[i - 1]);
                                    let j = choose|j: int|
                                        blocks + idx + 1 <= j < order.len() && (
                                            list[i].dx as int,
                                            list[i].dy as int,
                                        ) == #[trigger] placed(order[j], place.t.transposed());
                                    assert(blocks + idx <= j);
                                }
                            }
                        }
                    }
                },
            }
        }
    }
}

/// The longer and the shorter side in pixels that belong to an order of coefficients.
pub open spec fn ordered_size(order: int) -> (int, int) {
    if order == 2 {
        (16, 16)
    } else if order == 3 {
        (32, 32)
    } else if order == 4 {
        (16, 8)
    } else if order == 5 {
        (32, 8)
    } else if order == 6 {
        (32, 16)
    } else if order == 7 {
        (64, 64)
    } else if order == 8 {
        (64, 32)
    } else if order == 9 {
        (128, 128)
    } else if order == 10 {
        (128, 64)
    } else if order == 11 {
        (256, 256)
    } else if order == 12 {
        (256, 128)
    } else {
        (8, 8)
    }
}

/// Each order belongs to the transforms of one size, whichever side is the longer.
pub proof fn lemma_ordered_size(t: TransformType)
    ensures
        named_size(t) == ordered_size(t.order()) || (named_size(t).1, named_size(t).0)
            == ordered_size(t.order()),
        (t.order() == 0) == (t == TransformType::Dct8),
        (t.order() == 1) == (named_size(t) == (8int, 8int) && t != TransformType::Dct8),
{
}

} // verus!
