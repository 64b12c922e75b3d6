//! What transforms, quantization and prediction do to pixels.
use crate::vp8::arith::wrap16;
use crate::vp8::encoder::{frame_bytes, frame_tag, q_index, start_code};
use crate::vp8::macroblock::coded_block;
use crate::vp8::planes::{
    bdc_prediction, block_at, dc_prediction, lemma_cell, lemma_row_col, padded_plane,
    pixel_sum,
};
use crate::vp8::quant_tables::{
    lemma_quant_step, lemma_steps_in_order, lemma_two_steps, quant_step,
};
use crate::vp8::tables::{lemma_zigzag_steps, zigzag};
use crate::vp8::transform::{
    dequantize_spec, fdct_at, fdct_line, fdct_second, fdct_spec, fdct_stage, idct_at, idct_columns,
    idct_line, idct_spec, lemma_quantized_range, quantize_spec, quantized, reconstruct_spec,
    residual_spec, wht_at, wht_line,
};
use crate::webp::riff::le_bytes;
use vstd::prelude::*;

verus! {

// ---- inverse transform ----
/// One direction of the inverse transform is the cosine transform: the inputs are weighted with 1,
/// with the square root of two times the cosine of an eighth and three eighths of a half turn, and
/// with 1, and added up with the signs of their waves. Of the two products that are not whole each is
/// rounded down; inputs have sixteen bits, and weights are given in millionths.
#[verifier::rlimit(60)]
pub proof fn lemma_idct_line(p0: int, p1: int, p2: int, p3: int)
    requires
        -32768 <= p0 <= 32767,
        -32768 <= p1 <= 32767,
        -32768 <= p2 <= 32767,
        -32768 <= p3 <= 32767,
    ensures
        -2140000 < 1000000 * idct_line(p0, p1, p2, p3, 0) - (1000000 * p0 + 1306563 * p1 + 1000000
            * p2 + 541196 * p3) < 140000,
        -1140000 < 1000000 * idct_line(p0, p1, p2, p3, 1) - (1000000 * p0 + 541196 * p1 - 1000000
            * p2 - 1306563 * p3) < 1140000,
        -1140000 < 1000000 * idct_line(p0, p1, p2, p3, 2) - (1000000 * p0 - 541196 * p1 - 1000000
            * p2 + 1306563 * p3) < 1140000,
        -140000 < 1000000 * idct_line(p0, p1, p2, p3, 3) - (1000000 * p0 - 1306563 * p1 + 1000000
            * p2 - 541196 * p3) < 2140000,
{
}

/// A block with its first coefficient alone is even: an eighth of it everywhere, rounded.
pub proof fn lemma_idct_even(b: Seq<i32>, r: int, c: int)
    requires
        b.len() >= 16,
        forall|k: int| 1 <= k < 16 ==> #[trigger] b[k] == 0,
        -0x800_0000 <= b[0] <= 0x800_0000,
        0 <= r < 4,
        0 <= c < 4,
    ensures
        -4 < 8 * idct_at(b, r, c) - b[0] <= 4,
{
    assert(b[1] == 0 && b[2] == 0 && b[3] == 0 && b[4] == 0 && b[5] == 0 && b[6] == 0 && b[7] == 0);
    assert(b[8] == 0 && b[9] == 0 && b[10] == 0 && b[11] == 0);
    assert(b[12] == 0 && b[13] == 0 && b[14] == 0 && b[15] == 0);
    assert(idct_columns(b, r, 0) == b[0]);
    assert(idct_columns(b, r, 1) == 0 && idct_columns(b, r, 2) == 0 && idct_columns(b, r, 3) == 0);
}

/// Coefficients in the first column of a block change it from row to row only; those in the first
/// row from column to column only.
#[verifier::rlimit(60)]
pub proof fn lemma_idct_directions(b: Seq<i32>, r: int, c: int, r2: int, c2: int)
    requires
        b.len() >= 16,
        forall|k: int| 0 <= k < 16 ==> -32768 <= #[trigger] b[k] <= 32767,
        0 <= r < 4,
        0 <= c < 4,
        0 <= r2 < 4,
        0 <= c2 < 4,
    ensures
        (forall|k: int| 0 <= k < 16 && k % 4 != 0 ==> #[trigger] b[k] == 0) ==> idct_at(b, r, c)
            == idct_at(b, r, c2),
        (forall|k: int| 4 <= k < 16 ==> #[trigger] b[k] == 0) ==> idct_at(b, r, c) == idct_at(
            b,
            r2,
            c,
        ),
{
    if forall|k: int| 0 <= k < 16 && k % 4 != 0 ==> #[trigger] b[k] == 0 {
        assert(b[1] == 0 && b[2] == 0 && b[3] == 0 && b[5] == 0 && b[6] == 0 && b[7] == 0);
        assert(b[9] == 0 && b[10] == 0 && b[11] == 0 && b[13] == 0 && b[14] == 0 && b[15] == 0);
        assert(idct_columns(b, r, 1) == 0 && idct_columns(b, r, 2) == 0 && idct_columns(b, r, 3)
            == 0);
    }
    if forall|k: int| 4 <= k < 16 ==> #[trigger] b[k] == 0 {
        assert(b[4] == 0 && b[5] == 0 && b[6] == 0 && b[7] == 0 && b[8] == 0 && b[9] == 0);
        assert(b[10] == 0 && b[11] == 0 && b[12] == 0 && b[13] == 0 && b[14] == 0 && b[15] == 0);
        assert(idct_columns(b, r, 0) == idct_columns(b, r2, 0));
        assert(idct_columns(b, r, 1) == idct_columns(b, r2, 1));
        assert(idct_columns(b, r, 2) == idct_columns(b, r2, 2));
        assert(idct_columns(b, r, 3) == idct_columns(b, r2, 3));
    }
}

// ---- Walsh-Hadamard transform ----
/// One direction of the transform undoes itself but for a factor of four, and its outputs are told
/// apart by the waves that they measure: none, one change of sign, two and three.
pub proof fn lemma_wht_line(p0: int, p1: int, p2: int, p3: int, a: int, b: int)
    ensures
        ({
            let q0 = wht_line(p0, p1, p2, p3, 0);
            let q1 = wht_line(p0, p1, p2, p3, 1);
            let q2 = wht_line(p0, p1, p2, p3, 2);
            let q3 = wht_line(p0, p1, p2, p3, 3);
            &&& wht_line(q0, q1, q2, q3, 0) == 4 * p0
            &&& wht_line(q0, q1, q2, q3, 1) == 4 * p1
            &&& wht_line(q0, q1, q2, q3, 2) == 4 * p2
            &&& wht_line(q0, q1, q2, q3, 3) == 4 * p3
        }),
        wht_line(a, a, a, a, 0) == 4 * a,
        wht_line(a, a, b, b, 1) == 2 * (a - b),
        wht_line(a, b, b, a, 2) == 2 * (a - b),
        wht_line(a, b, a, b, 3) == 2 * (a - b),
{
}

// ---- forward transform ----
proof fn lemma_first_stage(x0: int, x1: int, x2: int, x3: int)
    requires
        -255 <= x0 <= 255,
        -255 <= x1 <= 255,
        -255 <= x2 <= 255,
        -255 <= x3 <= 255,
    ensures
        fdct_stage(x0, x1, x2, x3, 0) == 8 * x0 + 8 * x1 + 8 * x2 + 8 * x3,
        fdct_stage(x0, x1, x2, x3, 2) == 8 * x0 - 8 * x1 - 8 * x2 + 8 * x3,
        10404 <= 4096 * fdct_stage(x0, x1, x2, x3, 1) - (2217 * x0 + 5352 * x1 - 5352 * x2 - 2217
            * x3) <= 14500,
        3404 <= 4096 * fdct_stage(x0, x1, x2, x3, 3) - (5352 * x0 - 2217 * x1 + 2217 * x2 - 5352
            * x3) <= 7500,
{
}

proof fn lemma_small(v: int)
    requires
        -3000 <= v <= 3000,
    ensures
        wrap16(v) == v,
{
}

#[verifier::rlimit(60)]
proof fn lemma_second_even(x0: int, x1: int, x2: int, x3: int, t1: int, t3: int)
    requires
        -255 <= x0 <= 255,
        -255 <= x1 <= 255,
        -255 <= x2 <= 255,
        -255 <= x3 <= 255,
        10404 <= 4096 * t1 - (2217 * x0 + 5352 * x1 - 5352 * x2 - 2217 * x3) <= 14500,
        3404 <= 4096 * t3 - (5352 * x0 - 2217 * x1 + 2217 * x2 - 5352 * x3) <= 7500,
    ensures
        ({
            let t0 = 8 * x0 + 8 * x1 + 8 * x2 + 8 * x3;
            let t2 = 8 * x0 - 8 * x1 - 8 * x2 + 8 * x3;
            &&& -291000 < 1000000 * fdct_second(t0, t1, t2, t3, 0) - (1115494 * x0 + 47836 * x1
                - 47836 * x2 + 884506 * x3) < 775000
            &&& -672000 < 1000000 * fdct_second(t0, t1, t2, t3, 2) - (47836 * x0 + 884506 * x1
                + 1115494 * x2 - 47836 * x3) < 396000
        }),
{
    let r0 = (16 * x0 + 16 * x3 + t1 + t3 + 7) / 16;
    let r2 = (16 * x1 + 16 * x2 + t3 - t1 + 7) / 16;
    assert(0 <= 16 * x0 + 16 * x3 + t1 + t3 + 7 - 16 * r0 < 16);
    assert(0 <= 16 * x1 + 16 * x2 + t3 - t1 + 7 - 16 * r2 < 16);
    assert(-3000 <= r0 <= 3000);
    assert(-3000 <= r2 <= 3000);
    lemma_small(r0);
    lemma_small(r2);
}

#[verifier::rlimit(60)]
proof fn lemma_second_odd(x0: int, x1: int, x2: int, x3: int, t1: int, t3: int)
    requires
        -255 <= x0 <= 255,
        -255 <= x1 <= 255,
        -255 <= x2 <= 255,
        -255 <= x3 <= 255,
        10404 <= 4096 * t1 - (2217 * x0 + 5352 * x1 - 5352 * x2 - 2217 * x3) <= 14500,
        3404 <= 4096 * t3 - (5352 * x0 - 2217 * x1 + 2217 * x2 - 5352 * x3) <= 7500,
    ensures
        ({
            let t0 = 8 * x0 + 8 * x1 + 8 * x2 + 8 * x3;
            let t2 = 8 * x0 - 8 * x1 - 8 * x2 + 8 * x3;
            &&& -674000 < 1000000 * fdct_second(t0, t1, t2, t3, 1) - (-382690 * x0 + 1048967 * x1
                + 798933 * x2 - 382690 * x3) < 1447000
            &&& t0 != t3 ==> 1000000 * fdct_second(t0, t1, t2, t3, 1) - (-382690 * x0 + 1048967
                * x1 + 798933 * x2 - 382690 * x3) > 325000
            &&& t0 == t3 ==> 1000000 * fdct_second(t0, t1, t2, t3, 1) - (-382690 * x0 + 1048967
                * x1 + 798933 * x2 - 382690 * x3) < 447000
            &&& -494000 < 1000000 * fdct_second(t0, t1, t2, t3, 3) - (798933 * x0 + 382690 * x1
                + 382690 * x2 + 1048967 * x3) < 627000
        }),
{
    let t0 = 8 * x0 + 8 * x1 + 8 * x2 + 8 * x3;
    let t2 = 8 * x0 - 8 * x1 - 8 * x2 + 8 * x3;
    let n1 = (t0 - t3) * 2217 + (t1 - t2) * 5352 + 12000;
    let n3 = (t0 - t3) * 5352 - (t1 - t2) * 2217 + 51000;
    let r1 = n1 / 65536;
    let r3 = n3 / 65536;
    assert(0 <= n1 - 65536 * r1 < 65536);
    assert(0 <= n3 - 65536 * r3 < 65536);
}

/// Each row is transformed on its own, by a fixed matrix: within one for differences of bytes, but for
/// the second value, which is one greater where the row does not balance. Weights and bounds are given
/// in millionths.
pub proof fn lemma_fdct_line(x0: int, x1: int, x2: int, x3: int)
    requires
        -255 <= x0 <= 255,
        -255 <= x1 <= 255,
        -255 <= x2 <= 255,
        -255 <= x3 <= 255,
    ensures
        -291000 < 1000000 * fdct_line(x0, x1, x2, x3, 0) - (1115494 * x0 + 47836 * x1 - 47836 * x2
            + 884506 * x3) < 775000,
        -674000 < 1000000 * fdct_line(x0, x1, x2, x3, 1) - (-382690 * x0 + 1048967 * x1 + 798933
            * x2 - 382690 * x3) < 1447000,
        -672000 < 1000000 * fdct_line(x0, x1, x2, x3, 2) - (47836 * x0 + 884506 * x1 + 1115494
            * x2 - 47836 * x3) < 396000,
        fdct_stage(x0, x1, x2, x3, 0) != fdct_stage(x0, x1, x2, x3, 3) ==> 1000000 * fdct_line(
            x0,
            x1,
            x2,
            x3,
            1,
        ) - (-382690 * x0 + 1048967 * x1 + 798933 * x2 - 382690 * x3) > 325000,
        fdct_stage(x0, x1, x2, x3, 0) == fdct_stage(x0, x1, x2, x3, 3) ==> 1000000 * fdct_line(
            x0,
            x1,
            x2,
            x3,
            1,
        ) - (-382690 * x0 + 1048967 * x1 + 798933 * x2 - 382690 * x3) < 447000,
        -494000 < 1000000 * fdct_line(x0, x1, x2, x3, 3) - (798933 * x0 + 382690 * x1 + 382690
            * x2 + 1048967 * x3) < 627000,
{
    lemma_first_stage(x0, x1, x2, x3);
    let t1 = fdct_stage(x0, x1, x2, x3, 1);
    let t3 = fdct_stage(x0, x1, x2, x3, 3);
    lemma_second_even(x0, x1, x2, x3, t1, t3);
    lemma_second_odd(x0, x1, x2, x3, t1, t3);
}

// ---- quantization ----
/// A coefficient that is quantized and multiplied out again is off by no more than half a step, as
/// long as its multiple fits, and just half a step away it is taken away from zero; its sign is kept.
pub proof fn lemma_quantized_near(c: i16, q: int)
    requires
        4 <= q <= 284,
        -2047 * q <= c <= 2047 * q,
    ensures
        2 * (c - q * quantized(c, q)) <= q,
        -q <= 2 * (c - q * quantized(c, q)),
        c > 0 ==> 2 * (c - q * quantized(c, q)) < q,
        c < 0 ==> -q < 2 * (c - q * quantized(c, q)),
        c > 0 ==> quantized(c, q) >= 0,
        c < 0 ==> quantized(c, q) <= 0,
        c == 0 ==> quantized(c, q) == 0,
{
    let m = if c < 0 {
        -c
    } else {
        c as int
    };
    let v = (m + q / 2) / q;
    vstd::arithmetic::div_mod::lemma_fundamental_div_mod(m + q / 2, q);
    vstd::arithmetic::div_mod::lemma_mod_bound(m + q / 2, q);
    assert(0 <= v <= 2047) by (nonlinear_arith)
        requires
            m + q / 2 == q * v + (m + q / 2) % q,
            0 <= (m + q / 2) % q < q,
            0 <= m <= 2047 * q,
            q / 2 < q,
            0 <= q / 2,
            q >= 4,
    ;
    assert(q * (-v) == -(q * v)) by (nonlinear_arith);
    if c == 0 {
        assert(v == 0) by (nonlinear_arith)
            requires
                q / 2 == q * v + (q / 2) % q,
                0 <= (q / 2) % q,
                q / 2 < q,
                v >= 0,
                q >= 4,
        ;
    }
}

/// What is beyond the greatest multiple becomes the greatest multiple.
pub proof fn lemma_quantized_far(c: i16, q: int)
    requires
        4 <= q <= 284,
    ensures
        c > 2047 * q ==> quantized(c, q) == 2047,
        c < -2047 * q ==> quantized(c, q) == -2047,
{
    let m = if c < 0 {
        -c
    } else {
        c as int
    };
    let v = (m + q / 2) / q;
    if m > 2047 * q {
        assert(v >= 2047) by (nonlinear_arith)
            requires
                v == (m + q / 2) / q,
                m > 2047 * q,
                q >= 4,
        ;
    }
}

/// Steps grow with the quantizer index, and those of the first coefficient are never the greater.
pub proof fn lemma_steps_grow(q_idx: int, i: int)
    requires
        0 <= q_idx < 127,
    ensures
        quant_step(q_idx, i) <= quant_step(q_idx + 1, i),
        quant_step(q_idx, 0) <= quant_step(q_idx, 1),
{
    lemma_steps_in_order(q_idx);
}

/// Better quality means a smaller quantizer index: all of the range is used, evenly within one.
pub proof fn lemma_quality_index(a: int, b: int)
    requires
        0 <= a <= b,
    ensures
        q_index(b) <= q_index(a),
        0 <= q_index(a) <= 127,
        a <= 100 ==> 0 <= 127 * (100 - a) - 100 * q_index(a) < 100,
        a >= 100 ==> q_index(a) == 0,
        q_index(0) == 127,
{
}

/// Coefficients are multiplied with their own steps.
pub proof fn lemma_dequantized(coeffs: Seq<i16>, q_idx: int, i: int)
    requires
        0 <= q_idx < 128,
        coeffs.len() == 16,
        0 <= i < 16,
    ensures
        dequantize_spec(coeffs, q_idx)[i] == coeffs[i] * quant_step(
            q_idx,
            if i == 0 {
                0
            } else {
                1
            },
        ),
{
    lemma_quant_step(q_idx, i);
    if i != 0 {
        lemma_two_steps(q_idx, i);
    }
    let c = coeffs[i] as int;
    let q = quant_step(q_idx, i);
    assert(-0x8000 * 284 <= c * q <= 0x8000 * 284) by (nonlinear_arith)
        requires
            4 <= q <= 284,
            -0x8000 <= c <= 0x8000,
    ;
}

// ---- blocks ----
/// Without coefficients a block is its prediction.
pub proof fn lemma_nothing_coded(coeffs: Seq<i16>, q_idx: int, pred: int, i: int)
    requires
        0 <= q_idx < 128,
        0 <= pred <= 255,
        coeffs.len() == 16,
        forall|k: int| 0 <= k < 16 ==> #[trigger] coeffs[k] == 0,
        0 <= i < 16,
    ensures
        reconstruct_spec(coeffs, q_idx, pred)[i] == pred,
{
    let b = dequantize_spec(coeffs, q_idx);
    assert forall|k: int| 0 <= k < 16 implies #[trigger] b[k] == 0 by {
        lemma_dequantized(coeffs, q_idx, k);
        assert(coeffs[k] == 0);
    }
    assert(b[0] == 0);
    lemma_idct_even(b, i / 4, i % 4);
    assert(idct_spec(b)[i] == idct_at(b, i / 4, i % 4));
}

/// A block whose first coefficient alone is coded is even: its prediction and an eighth of the
/// coefficient times its step, rounded and kept within a byte.
#[verifier::rlimit(60)]
pub proof fn lemma_even_block(coeffs: Seq<i16>, q_idx: int, pred: int, i: int)
    requires
        0 <= q_idx < 128,
        0 <= pred <= 255,
        coeffs.len() == 16,
        -2047 <= coeffs[0] <= 2047,
        forall|k: int| 1 <= k < 16 ==> #[trigger] coeffs[k] == 0,
        0 <= i < 16,
    ensures
        ({
            let v = reconstruct_spec(coeffs, q_idx, pred)[i] as int;
            let d = coeffs[0] * quant_step(q_idx, 0);
            &&& 8 * pred + d < 0 ==> v == 0
            &&& 8 * pred + d > 2040 ==> v == 255
            &&& 4 <= 8 * pred + d <= 2036 ==> -4 < 8 * v - (8 * pred + d) <= 4
        }),
{
    let b = dequantize_spec(coeffs, q_idx);
    lemma_quant_step(q_idx, 0);
    assert forall|k: int| 1 <= k < 16 implies #[trigger] b[k] == 0 by {
        lemma_dequantized(coeffs, q_idx, k);
        assert(coeffs[k] == 0);
        let q = quant_step(q_idx, 1);
        assert(0 * q == 0);
    }
    lemma_dequantized(coeffs, q_idx, 0);
    let c = coeffs[0] as int;
    let q = quant_step(q_idx, 0);
    assert(-2047 * 284 <= c * q <= 2047 * 284) by (nonlinear_arith)
        requires
            4 <= q <= 284,
            -2047 <= c <= 2047,
    ;
    lemma_idct_even(b, i / 4, i % 4);
    assert(idct_spec(b)[i] == idct_at(b, i / 4, i % 4));
}

/// A block that is what was predicted is coded as nothing.
pub proof fn lemma_predicted_block(
    src: Seq<u8>,
    stride: int,
    x: int,
    y: int,
    pred: int,
    q_idx: int,
    i: int,
)
    requires
        0 <= q_idx < 128,
        0 <= pred <= 255,
        forall|k: int| 0 <= k < 16 ==> #[trigger] block_at(src, stride, x, y)[k] == pred,
        0 <= i < 16,
    ensures
        coded_block(src, stride, x, y, pred, q_idx)[i] == 0,
{
    reveal(coded_block);
    let block = block_at(src, stride, x, y);
    let res = residual_spec(block, pred);
    assert forall|k: int| 0 <= k < 16 implies #[trigger] res[k] == 0 by {
        assert(block[k] == pred);
    }
    let r = i % 4;
    let k = i / 4;
    assert(res[4 * r] == 0 && res[4 * r + 1] == 0 && res[4 * r + 2] == 0 && res[4 * r + 3] == 0);
    let v = fdct_at(res, k, r);
    lemma_fdct_zero(k);
    assert(0 <= v <= 1);
    assert(fdct_spec(res)[i] == v);
    lemma_quant_step(q_idx, i);
    let q = quant_step(q_idx, i);
    assert((v + q / 2) / q == 0) by (nonlinear_arith)
        requires
            0 <= v <= 1,
            q >= 4,
    ;
}

proof fn lemma_fdct_zero(k: int)
    requires
        0 <= k < 4,
    ensures
        0 <= fdct_line(0, 0, 0, 0, k) <= 1,
{
}

/// A residual is what a block lacks of its prediction.
pub proof fn lemma_residual(src: Seq<u8>, pred: int, i: int)
    requires
        0 <= pred <= 255,
        src.len() == 16,
        0 <= i < 16,
    ensures
        pred + residual_spec(src, pred)[i] == src[i],
{
}

// ---- prediction ----
proof fn lemma_even_sum(s: Seq<u8>, start: int, step: int, n: nat, v: int)
    requires
        forall|k: int| 0 <= k < n ==> #[trigger] s[start + k * step] == v,
    ensures
        pixel_sum(s, start, step, n) == v * n,
    decreases n,
{
    if n > 0 {
        lemma_even_sum(s, start, step, (n - 1) as nat, v);
        assert(s[start + (n - 1) * step] == v);
        assert(v * n == v * (n - 1) + v) by (nonlinear_arith);
    } else {
        assert(v * 0 == 0);
    }
}

/// Sums of pixels above and to the left of blocks are even where the pixels are: the prediction is
/// then what they are. Along the upper edge of a picture 127 stands above, and along the left edge
/// 129 stands to the left of a small block; a large block goes by the pixels that there are, and by
/// 128 where there are none.
pub proof fn lemma_even_prediction(recon: Seq<u8>, stride: int, x: int, y: int, v: int)
    requires
        0 <= v <= 255,
        0 <= x,
        0 <= y,
        y > 0 ==> forall|k: int| 0 <= k < 8 ==> #[trigger] recon[(y - 1) * stride + x + k * 1] == v,
        x > 0 ==> forall|k: int| 0 <= k < 8 ==> #[trigger] recon[y * stride + x - 1 + k * stride]
            == v,
    ensures
        x > 0 && y > 0 ==> bdc_prediction(recon, stride, x, y) == v,
        x == 0 && y == 0 ==> bdc_prediction(recon, stride, x, y) == 128,
        x > 0 && y == 0 ==> -1 <= 2 * bdc_prediction(recon, stride, x, y) - (127 + v) <= 1,
        x == 0 && y > 0 ==> -1 <= 2 * bdc_prediction(recon, stride, x, y) - (129 + v) <= 1,
        x > 0 || y > 0 ==> dc_prediction(recon, stride, x, y) == v,
        x == 0 && y == 0 ==> dc_prediction(recon, stride, x, y) == 128,
{
    if y > 0 {
        lemma_even_sum(recon, (y - 1) * stride + x, 1, 4, v);
        lemma_even_sum(recon, (y - 1) * stride + x, 1, 8, v);
    }
    if x > 0 {
        lemma_even_sum(recon, y * stride + x - 1, stride, 4, v);
        lemma_even_sum(recon, y * stride + x - 1, stride, 8, v);
    }
}

/// A prediction is the mean of the pixels above and to the left, rounded to the nearest; just between
/// two it is the greater.
pub proof fn lemma_prediction_near(recon: Seq<u8>, stride: int, x: int, y: int)
    requires
        0 < x,
        0 < y,
    ensures
        ({
            let above = pixel_sum(recon, (y - 1) * stride + x, 1, 4);
            let left = pixel_sum(recon, y * stride + x - 1, stride, 4);
            -4 < 8 * bdc_prediction(recon, stride, x, y) - (above + left) <= 4
        }),
        ({
            let above = pixel_sum(recon, (y - 1) * stride + x, 1, 8);
            let left = pixel_sum(recon, y * stride + x - 1, stride, 8);
            &&& -8 < 16 * dc_prediction(recon, stride, x, y) - (above + left) <= 8
        }),
{
}

/// Along an edge of the picture a large block goes by the pixels of the other side alone.
pub proof fn lemma_edge_prediction_near(recon: Seq<u8>, stride: int, n: int)
    requires
        0 < n,
    ensures
        -4 < 8 * dc_prediction(recon, stride, n, 0) - pixel_sum(recon, n - 1, stride, 8) <= 4,
        -4 < 8 * dc_prediction(recon, stride, 0, n) - pixel_sum(recon, (n - 1) * stride, 1, 8) <= 4,
{
    assert(0 * stride + n - 1 == n - 1);
    assert((n - 1) * stride + 0 == (n - 1) * stride);
}

/// A padded plane holds the picture, and beyond its edges the pixel of the edge that is nearest.
pub proof fn lemma_padded(
    src: Seq<u8>,
    width: int,
    height: int,
    padded_width: int,
    padded_height: int,
    x: int,
    y: int,
)
    requires
        1 <= width <= padded_width,
        1 <= height <= padded_height,
        src.len() == width * height,
        0 <= x < padded_width,
        0 <= y < padded_height,
    ensures
        ({
            let v = padded_plane(src, width, height, padded_width, padded_height)[y * padded_width
                + x];
            &&& x < width && y < height ==> v == src[y * width + x]
            &&& x >= width && y < height ==> v == src[y * width + width - 1]
            &&& x < width && y >= height ==> v == src[(height - 1) * width + x]
            &&& x >= width && y >= height ==> v == src[width * height - 1]
        }),
{
    lemma_cell(y, x, padded_width, padded_height);
    lemma_row_col(y, x, padded_width);
    assert((height - 1) * width + width - 1 == width * height - 1) by (nonlinear_arith);
}

// ---- order of coefficients ----
/// Coefficients are visited along the diagonals of a block, from the upper left to the lower right,
/// down the odd ones and up the even ones.
pub proof fn lemma_diagonals(i: int)
    requires
        0 <= i < 15,
    ensures
        ({
            let d = zigzag(i) / 4 + zigzag(i) % 4;
            let e = zigzag(i + 1) / 4 + zigzag(i + 1) % 4;
            &&& e == d || e == d + 1
            &&& e == d && d % 2 == 1 ==> zigzag(i + 1) / 4 == zigzag(i) / 4 + 1
            &&& e == d && d % 2 == 0 ==> zigzag(i + 1) / 4 == zigzag(i) / 4 - 1
            &&& i == 0 ==> zigzag(i) == 0
        }),
{
    lemma_zigzag_steps(i);
}

// ---- frame ----
proof fn lemma_two_bytes(v: int)
    requires
        0 <= v < 0x1_0000,
    ensures
        le_bytes(v, 2).len() == 2,
        le_bytes(v, 2)[0] + 256 * le_bytes(v, 2)[1] == v,
{
    reveal_with_fuel(le_bytes, 3);
    let s = le_bytes(v, 2);
    assert(s =~= seq![(v % 256) as u8, (v / 256 % 256) as u8]);
}

proof fn lemma_three_bytes(v: int)
    requires
        0 <= v < 0x100_0000,
    ensures
        le_bytes(v, 3).len() == 3,
        le_bytes(v, 3)[0] + 256 * le_bytes(v, 3)[1] + 65536 * le_bytes(v, 3)[2] == v,
{
    lemma_two_bytes(v / 256);
    let s = le_bytes(v, 3);
    let t = le_bytes(v / 256, 2);
    assert(s =~= seq![(v % 256) as u8] + t);
    assert(s[0] == (v % 256) as u8 && s[1] == t[0] && s[2] == t[1]);
}

/// A frame starts as a key frame that is shown, with the length of its first partition behind the
/// flags, and goes on with the start code 9D 01 2A, width and height.
#[verifier::rlimit(60)]
pub proof fn lemma_frame_start(width: int, height: int, first: Seq<u8>, parts: Seq<Seq<u8>>)
    requires
        0 <= width < 0x4000,
        0 <= height < 0x4000,
        first.len() < 0x8_0000,
    ensures
        ({
            let s = frame_bytes(width, height, first, parts);
            let tag = s[0] + 256 * s[1] + 65536 * s[2];
            &&& s.len() >= 10
            &&& tag % 2 == 0
            &&& tag / 16 % 2 == 1
            &&& tag / 2 % 8 == 0
            &&& tag / 32 == first.len()
            &&& s[3] == 0x9D && s[4] == 0x01 && s[5] == 0x2A
            &&& s[6] + 256 * s[7] == width
            &&& s[8] + 256 * s[9] == height
        }),
{
    let s = frame_bytes(width, height, first, parts);
    let a = frame_tag(first.len() as int);
    let b = start_code();
    let c = le_bytes(width, 2);
    let d = le_bytes(height, 2);
    lemma_three_bytes(first.len() as int * 32 + 16);
    lemma_two_bytes(width);
    lemma_two_bytes(height);
    assert(s[0] == a[0] && s[1] == a[1] && s[2] == a[2]);
    assert(s[3] == b[0] && s[4] == b[1] && s[5] == b[2]);
    assert(s[6] == c[0] && s[7] == c[1] && s[8] == d[0] && s[9] == d[1]);
}

/// Of what is quantized and multiplied out again, each coefficient is off by no more than half of its
/// own step.
pub proof fn lemma_coefficient_returns(dct: Seq<i16>, q_idx: int, i: int)
    requires
        0 <= q_idx < 128,
        dct.len() == 16,
        0 <= i < 16,
        -2047 * 4 <= dct[i] <= 2047 * 4,
    ensures
        ({
            let back = dequantize_spec(quantize_spec(dct, q_idx), q_idx)[i];
            let step = quant_step(
                q_idx,
                if i == 0 {
                    0
                } else {
                    1
                },
            );
            -step <= 2 * (dct[i] - back) <= step
        }),
{
    let q = quant_step(q_idx, i);
    lemma_quant_step(q_idx, i);
    if i != 0 {
        lemma_two_steps(q_idx, i);
    }
    assert(-2047 * q <= dct[i] <= 2047 * q);
    lemma_quantized_near(dct[i], q);
    lemma_quantized_range(dct, q_idx);
    let coded = quantize_spec(dct, q_idx);
    assert(-2047 <= coded[i] <= 2047);
    lemma_dequantized(coded, q_idx, i);
    let c = coded[i] as int;
    assert(c == quantized(dct[i], q)) by {
        assert(coded[i] == quantized(dct[i], q) as i16);
        lemma_quantized_fits(dct[i], q);
    }
    assert(c * q == q * c) by (nonlinear_arith);
}

proof fn lemma_quantized_fits(c: i16, q: int)
    requires
        q >= 1,
    ensures
        -2047 <= quantized(c, q) <= 2047,
{
    let m = if c < 0 {
        -c
    } else {
        c as int
    };
    assert((m + q / 2) / q >= 0) by (nonlinear_arith)
        requires
            m >= 0,
            q >= 1,
    ;
}

/// A block of second-order coefficients with its first alone is even: an eighth of it everywhere,
/// rounded. Those of its first column change it from row to row only, those of its first row from
/// column to column only.
pub proof fn lemma_wht_block(b: Seq<i32>, r: int, c: int, r2: int, c2: int)
    requires
        b.len() >= 16,
        0 <= r < 4,
        0 <= c < 4,
        0 <= r2 < 4,
        0 <= c2 < 4,
    ensures
        (forall|k: int| 1 <= k < 16 ==> #[trigger] b[k] == 0) ==> -4 <= 8 * wht_at(b, r, c) - b[0]
            <= 3,
        (forall|k: int| 0 <= k < 16 && k % 4 != 0 ==> #[trigger] b[k] == 0) ==> wht_at(b, r, c)
            == wht_at(b, r, c2),
        (forall|k: int| 4 <= k < 16 ==> #[trigger] b[k] == 0) ==> wht_at(b, r, c) == wht_at(
            b,
            r2,
            c,
        ),
{
    if forall|k: int| 0 <= k < 16 && k % 4 != 0 ==> #[trigger] b[k] == 0 {
        assert(b[1] == 0 && b[2] == 0 && b[3] == 0 && b[5] == 0 && b[6] == 0 && b[7] == 0);
        assert(b[9] == 0 && b[10] == 0 && b[11] == 0 && b[13] == 0 && b[14] == 0 && b[15] == 0);
    }
    if forall|k: int| 4 <= k < 16 ==> #[trigger] b[k] == 0 {
        assert(b[4] == 0 && b[5] == 0 && b[6] == 0 && b[7] == 0 && b[8] == 0 && b[9] == 0);
        assert(b[10] == 0 && b[11] == 0 && b[12] == 0 && b[13] == 0 && b[14] == 0 && b[15] == 0);
    }
    if forall|k: int| 1 <= k < 16 ==> #[trigger] b[k] == 0 {
        assert(b[1] == 0 && b[2] == 0 && b[3] == 0 && b[4] == 0);
        assert(b[5] == 0 && b[6] == 0 && b[7] == 0 && b[8] == 0 && b[9] == 0);
        assert(b[10] == 0 && b[11] == 0 && b[12] == 0 && b[13] == 0 && b[14] == 0 && b[15] == 0);
    }
}

} // verus!
