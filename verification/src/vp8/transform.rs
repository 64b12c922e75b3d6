//! Four by four block transforms and quantization.
use crate::vp8::arith::{
    clamp_byte, clamp_byte_spec, floor_16, floor_4096, floor_65536, floor_8, wrap16, wrap32,
    wrap_i16, wrap_i32,
};
use crate::vp8::quant_tables::{ac_step, dc_step, lemma_quant_step, quant_step};
use vstd::prelude::*;

verus! {

/// `x * sqrt(2) * cos(pi / 8)` in fixed point.
pub open spec fn mul_cos(x: int) -> int {
    x + (x * 20091) / 65536
}

/// `x * sqrt(2) * sin(pi / 8)` in fixed point.
pub open spec fn mul_sin(x: int) -> int {
    (x * 35468) / 65536
}

/// The one-dimensional inverse transform: output `k` of four inputs.
pub open spec fn idct_line(p0: int, p1: int, p2: int, p3: int, k: int) -> int {
    if k == 0 {
        (p0 + p2) + (mul_cos(p1) + mul_sin(p3))
    } else if k == 1 {
        (p0 - p2) + (mul_sin(p1) - mul_cos(p3))
    } else if k == 2 {
        (p0 - p2) - (mul_sin(p1) - mul_cos(p3))
    } else {
        (p0 + p2) - (mul_cos(p1) + mul_sin(p3))
    }
}

/// Row `r`, column `c` after the columns are transformed.
pub open spec fn idct_columns(b: Seq<i32>, r: int, c: int) -> int {
    wrap32(idct_line(b[c] as int, b[4 + c] as int, b[8 + c] as int, b[12 + c] as int, r))
}

/// Row `r`, column `c` of the inverse transform.
pub open spec fn idct_at(b: Seq<i32>, r: int, c: int) -> int {
    wrap32(
        (idct_line(
            idct_columns(b, r, 0),
            idct_columns(b, r, 1),
            idct_columns(b, r, 2),
            idct_columns(b, r, 3),
            c,
        ) + 4) / 8,
    )
}

/// The inverse transform of the first 16 entries; what follows them is unchanged.
pub open spec fn is_idct(before: Seq<i32>, after: Seq<i32>) -> bool {
    &&& after.len() == before.len()
    &&& forall|r: int, c: int|
        0 <= r < 4 && 0 <= c < 4 ==> #[trigger] after[4 * r + c] == idct_at(before, r, c)
    &&& forall|k: int| 16 <= k < before.len() ==> after[k] == before[k]
}

fn mul_cos_exec(x: i64) -> (r: i64)
    requires
        -0x8000_0000 <= x <= 0x8000_0000,
    ensures
        r == mul_cos(x as int),
        -0x1_0000_0000 <= r <= 0x1_0000_0000,
{
    x + floor_65536(x * 20091)
}

fn mul_sin_exec(x: i64) -> (r: i64)
    requires
        -0x8000_0000 <= x <= 0x8000_0000,
    ensures
        r == mul_sin(x as int),
        -0x1_0000_0000 <= r <= 0x1_0000_0000,
{
    floor_65536(x * 35468)
}

fn idct_line_exec(p0: i32, p1: i32, p2: i32, p3: i32) -> (r: (i64, i64, i64, i64))
    ensures
        r.0 == idct_line(p0 as int, p1 as int, p2 as int, p3 as int, 0),
        r.1 == idct_line(p0 as int, p1 as int, p2 as int, p3 as int, 1),
        r.2 == idct_line(p0 as int, p1 as int, p2 as int, p3 as int, 2),
        r.3 == idct_line(p0 as int, p1 as int, p2 as int, p3 as int, 3),
        -0x10_0000_0000 <= r.0 <= 0x10_0000_0000,
        -0x10_0000_0000 <= r.1 <= 0x10_0000_0000,
        -0x10_0000_0000 <= r.2 <= 0x10_0000_0000,
        -0x10_0000_0000 <= r.3 <= 0x10_0000_0000,
{
    let a1: i64 = p0 as i64 + p2 as i64;
    let b1: i64 = p0 as i64 - p2 as i64;
    let c1: i64 = mul_sin_exec(p1 as i64) - mul_cos_exec(p3 as i64);
    let d1: i64 = mul_cos_exec(p1 as i64) + mul_sin_exec(p3 as i64);
    (a1 + d1, b1 + c1, b1 - c1, a1 - d1)
}

pub fn idct4x4(block: &mut Vec<i32>)
    requires
        old(block)@.len() >= 16,
    ensures
        is_idct(old(block)@, final(block)@),
{
    idct4x4_scalar(block);
}

/// The inverse transform of a block in place.
pub fn idct4x4_scalar(block: &mut Vec<i32>)
    requires
        old(block)@.len() >= 16,
    ensures
        is_idct(old(block)@, final(block)@),
{
    let ghost before = block@;
    let mut i: usize = 0;
    while i < 4
        invariant
            i <= 4,
            block@.len() == before.len(),
            before.len() >= 16,
            forall|r: int, c: int|
                0 <= r < 4 && 0 <= c < i ==> #[trigger] block@[4 * r + c] == idct_columns(
                    before,
                    r,
                    c,
                ),
            forall|r: int, c: int|
                0 <= r < 4 && i <= c < 4 ==> #[trigger] block@[4 * r + c] == before[4 * r + c],
            forall|k: int| 16 <= k < before.len() ==> block@[k] == before[k],
        decreases 4 - i,
    {
        assert(block@[4 * 0 + i as int] == before[4 * 0 + i as int]);
        assert(block@[4 * 1 + i as int] == before[4 * 1 + i as int]);
        assert(block@[4 * 2 + i as int] == before[4 * 2 + i as int]);
        assert(block@[4 * 3 + i as int] == before[4 * 3 + i as int]);
        let (o0, o1, o2, o3) = idct_line_exec(block[i], block[4 + i], block[8 + i], block[12 + i]);
        block.set(i, wrap_i32(o0));
        block.set(4 + i, wrap_i32(o1));
        block.set(8 + i, wrap_i32(o2));
        block.set(12 + i, wrap_i32(o3));
        i = i + 1;
    }
    let mut j: usize = 0;
    while j < 4
        invariant
            j <= 4,
            block@.len() == before.len(),
            before.len() >= 16,
            forall|r: int, c: int|
                0 <= r < j && 0 <= c < 4 ==> #[trigger] block@[4 * r + c] == idct_at(before, r, c),
            forall|r: int, c: int|
                j <= r < 4 && 0 <= c < 4 ==> #[trigger] block@[4 * r + c] == idct_columns(
                    before,
                    r,
                    c,
                ),
            forall|k: int| 16 <= k < before.len() ==> block@[k] == before[k],
        decreases 4 - j,
    {
        assert(block@[4 * j as int + 0] == idct_columns(before, j as int, 0));
        assert(block@[4 * j as int + 1] == idct_columns(before, j as int, 1));
        assert(block@[4 * j as int + 2] == idct_columns(before, j as int, 2));
        assert(block@[4 * j as int + 3] == idct_columns(before, j as int, 3));
        let (o0, o1, o2, o3) = idct_line_exec(
            block[4 * j],
            block[4 * j + 1],
            block[4 * j + 2],
            block[4 * j + 3],
        );
        block.set(4 * j, wrap_i32(floor_8(o0 + 4)));
        block.set(4 * j + 1, wrap_i32(floor_8(o1 + 4)));
        block.set(4 * j + 2, wrap_i32(floor_8(o2 + 4)));
        block.set(4 * j + 3, wrap_i32(floor_8(o3 + 4)));
        j = j + 1;
    }
}

/// Row `r`, column `c` of the inverse transform in lanes of 32 bits: the second pass wraps before
/// it rounds.
pub open spec fn lane_at(b: Seq<i32>, r: int, c: int) -> int {
    wrap32(
        idct_line(
            idct_columns(b, r, 0),
            idct_columns(b, r, 1),
            idct_columns(b, r, 2),
            idct_columns(b, r, 3),
            c,
        ) + 4,
    ) / 8
}

/// The inverse transform in lanes of the first 16 entries; what follows them is unchanged.
pub open spec fn is_lane_idct(before: Seq<i32>, after: Seq<i32>) -> bool {
    &&& after.len() == before.len()
    &&& forall|r: int, c: int|
        0 <= r < 4 && 0 <= c < 4 ==> #[trigger] after[4 * r + c] == lane_at(before, r, c)
    &&& forall|k: int| 16 <= k < before.len() ==> after[k] == before[k]
}

/// Four values of a line, within bounds.
proof fn lemma_line_bound(p0: int, p1: int, p2: int, p3: int, k: int, m: int)
    requires
        0 <= m,
        -m <= p0 <= m,
        -m <= p1 <= m,
        -m <= p2 <= m,
        -m <= p3 <= m,
    ensures
        -4 * m - 3 <= idct_line(p0, p1, p2, p3, k) <= 4 * m + 3,
{
}

/// On coefficients of sixteen bits, lanes give what the transform gives.
pub proof fn lemma_lanes_match(b: Seq<i32>, r: int, c: int)
    requires
        b.len() >= 16,
        forall|k: int| 0 <= k < 16 ==> -32768 <= #[trigger] b[k] <= 32767,
        0 <= r < 4,
        0 <= c < 4,
    ensures
        lane_at(b, r, c) == idct_at(b, r, c),
{
    assert forall|k: int| 0 <= k < 4 implies -131075 <= #[trigger] idct_columns(b, r, k)
        <= 131075 by {
        lemma_line_bound(
            b[k] as int,
            b[4 + k] as int,
            b[8 + k] as int,
            b[12 + k] as int,
            r,
            32768,
        );
    }
    let p0 = idct_columns(b, r, 0);
    let p1 = idct_columns(b, r, 1);
    let p2 = idct_columns(b, r, 2);
    let p3 = idct_columns(b, r, 3);
    lemma_line_bound(p0, p1, p2, p3, c, 131075);
}

/// Four rows with their columns as rows.
fn transpose4x4(m: &[[i32; 4]; 4]) -> (r: [[i32; 4]; 4])
    ensures
        forall|i: int, j: int| 0 <= i < 4 && 0 <= j < 4 ==> #[trigger] r@[i]@[j] == m@[j]@[i],
{
    [
        [m[0][0], m[1][0], m[2][0], m[3][0]],
        [m[0][1], m[1][1], m[2][1], m[3][1]],
        [m[0][2], m[1][2], m[2][2], m[3][2]],
        [m[0][3], m[1][3], m[2][3], m[3][3]],
    ]
}

/// The one-dimensional transform of a lane, wrapped.
fn butterfly(m: &[[i32; 4]; 4], lane: usize, bias: i64) -> (r: (i32, i32, i32, i32))
    requires
        lane < 4,
        0 <= bias <= 4,
    ensures
        ({
            let i = lane as int;
            let (p0, p1, p2, p3) = (m@[0]@[i], m@[1]@[i], m@[2]@[i], m@[3]@[i]);
            &&& r.0 == wrap32(idct_line(p0 as int, p1 as int, p2 as int, p3 as int, 0) + bias)
            &&& r.1 == wrap32(idct_line(p0 as int, p1 as int, p2 as int, p3 as int, 1) + bias)
            &&& r.2 == wrap32(idct_line(p0 as int, p1 as int, p2 as int, p3 as int, 2) + bias)
            &&& r.3 == wrap32(idct_line(p0 as int, p1 as int, p2 as int, p3 as int, 3) + bias)
        }),
{
    let (o0, o1, o2, o3) = idct_line_exec(m[0][lane], m[1][lane], m[2][lane], m[3][lane]);
    (wrap_i32(o0 + bias), wrap_i32(o1 + bias), wrap_i32(o2 + bias), wrap_i32(o3 + bias))
}

/// All four lanes of a pass: output `k` of every lane makes row `k`.
fn butterflies(m: &[[i32; 4]; 4], bias: i64) -> (r: [[i32; 4]; 4])
    requires
        0 <= bias <= 4,
    ensures
        forall|k: int, i: int|
            0 <= k < 4 && 0 <= i < 4 ==> #[trigger] r@[k]@[i] == wrap32(
                idct_line(
                    m@[0]@[i] as int,
                    m@[1]@[i] as int,
                    m@[2]@[i] as int,
                    m@[3]@[i] as int,
                    k,
                ) + bias,
            ),
{
    let a = butterfly(m, 0, bias);
    let b = butterfly(m, 1, bias);
    let c = butterfly(m, 2, bias);
    let d = butterfly(m, 3, bias);
    [
        [a.0, b.0, c.0, d.0],
        [a.1, b.1, c.1, d.1],
        [a.2, b.2, c.2, d.2],
        [a.3, b.3, c.3, d.3],
    ]
}

/// The inverse transform of a block in place, row by row in lanes of 32 bits.
pub fn idct4x4_sse41(block: &mut Vec<i32>)
    requires
        old(block)@.len() >= 16,
    ensures
        is_lane_idct(old(block)@, final(block)@),
{
    let ghost before = block@;
    let rows: [[i32; 4]; 4] = [
        [block[0], block[1], block[2], block[3]],
        [block[4], block[5], block[6], block[7]],
        [block[8], block[9], block[10], block[11]],
        [block[12], block[13], block[14], block[15]],
    ];
    let first: [[i32; 4]; 4] = butterflies(&rows, 0);
    assert forall|r: int, c: int| 0 <= r < 4 && 0 <= c < 4 implies #[trigger] first@[r]@[c]
        == idct_columns(before, r, c) by {
        assert(rows@[0]@[c] == before[c]);
        assert(rows@[1]@[c] == before[4 + c]);
        assert(rows@[2]@[c] == before[8 + c]);
        assert(rows@[3]@[c] == before[12 + c]);
    }
    let columns: [[i32; 4]; 4] = transpose4x4(&first);
    let second: [[i32; 4]; 4] = butterflies(&columns, 4);
    let out: [[i32; 4]; 4] = transpose4x4(&second);
    assert forall|r: int, c: int| 0 <= r < 4 && 0 <= c < 4 implies (#[trigger] out@[r]@[c]) as int
        / 8 == lane_at(before, r, c) by {
        assert(out@[r]@[c] == second@[c]@[r]);
        assert(columns@[0]@[r] == first@[r]@[0]);
        assert(columns@[1]@[r] == first@[r]@[1]);
        assert(columns@[2]@[r] == first@[r]@[2]);
        assert(columns@[3]@[r] == first@[r]@[3]);
    }
    let mut k: usize = 0;
    while k < 16
        invariant
            k <= 16,
            before.len() >= 16,
            block@.len() == before.len(),
            forall|r: int, c: int|
                0 <= r < 4 && 0 <= c < 4 ==> (#[trigger] out@[r]@[c]) as int / 8 == lane_at(
                    before,
                    r,
                    c,
                ),
            forall|j: int|
                0 <= j < k ==> #[trigger] block@[j] == lane_at(before, j / 4, j % 4),
            forall|j: int| k <= j < before.len() ==> #[trigger] block@[j] == before[j],
        decreases 16 - k,
    {
        let v: i32 = out[k / 4][k % 4];
        let shifted: i64 = floor_8(v as i64);
        assert(out@[k as int / 4]@[k as int % 4] as int / 8 == lane_at(
            before,
            k as int / 4,
            k as int % 4,
        ));
        block.set(k, shifted as i32);
        k = k + 1;
    }
    assert forall|r: int, c: int| 0 <= r < 4 && 0 <= c < 4 implies #[trigger] block@[4 * r + c]
        == lane_at(before, r, c) by {
        let j = 4 * r + c;
        assert(j / 4 == r && j % 4 == c);
    }
}

/// The one-dimensional Walsh-Hadamard transform: output `k` of four inputs.
pub open spec fn wht_line(p0: int, p1: int, p2: int, p3: int, k: int) -> int {
    if k == 0 {
        p0 + p1 + p2 + p3
    } else if k == 1 {
        p0 + p1 - p2 - p3
    } else if k == 2 {
        p0 - p1 - p2 + p3
    } else {
        p0 - p1 + p2 - p3
    }
}

pub open spec fn wht_columns(b: Seq<i32>, r: int, c: int) -> int {
    wht_line(b[c] as int, b[4 + c] as int, b[8 + c] as int, b[12 + c] as int, r)
}

pub open spec fn wht_at(b: Seq<i32>, r: int, c: int) -> int {
    (wht_line(
        wht_columns(b, r, 0),
        wht_columns(b, r, 1),
        wht_columns(b, r, 2),
        wht_columns(b, r, 3),
        c,
    ) + 3) / 8
}

/// The inverse Walsh-Hadamard transform of a block in place.
pub fn iwht4x4(block: &mut Vec<i32>)
    requires
        old(block)@.len() >= 16,
        forall|k: int|
            0 <= k < 16 ==> -0x07ff_ffff <= #[trigger] old(block)@[k] <= 0x07ff_ffff,
    ensures
        final(block)@.len() == old(block)@.len(),
        forall|r: int, c: int|
            0 <= r < 4 && 0 <= c < 4 ==> #[trigger] final(block)@[4 * r + c] == wht_at(
                old(block)@,
                r,
                c,
            ),
        forall|k: int| 16 <= k < old(block)@.len() ==> final(block)@[k] == old(block)@[k],
{
    let ghost before = block@;
    let mut i: usize = 0;
    while i < 4
        invariant
            i <= 4,
            block@.len() == before.len(),
            before.len() >= 16,
            forall|k: int| 0 <= k < 16 ==> -0x07ff_ffff <= #[trigger] before[k] <= 0x07ff_ffff,
            forall|r: int, c: int|
                0 <= r < 4 && 0 <= c < i ==> #[trigger] block@[4 * r + c] == wht_columns(
                    before,
                    r,
                    c,
                ),
            forall|r: int, c: int|
                0 <= r < 4 && i <= c < 4 ==> #[trigger] block@[4 * r + c] == before[4 * r + c],
            forall|k: int| 16 <= k < before.len() ==> block@[k] == before[k],
        decreases 4 - i,
    {
        assert(block@[4 * 0 + i as int] == before[4 * 0 + i as int]);
        assert(block@[4 * 1 + i as int] == before[4 * 1 + i as int]);
        assert(block@[4 * 2 + i as int] == before[4 * 2 + i as int]);
        assert(block@[4 * 3 + i as int] == before[4 * 3 + i as int]);
        let a1: i32 = block[i] + block[12 + i];
        let b1: i32 = block[4 + i] + block[8 + i];
        let c1: i32 = block[4 + i] - block[8 + i];
        let d1: i32 = block[i] - block[12 + i];
        block.set(i, a1 + b1);
        block.set(4 + i, c1 + d1);
        block.set(8 + i, a1 - b1);
        block.set(12 + i, d1 - c1);
        i = i + 1;
    }
    let mut j: usize = 0;
    while j < 4
        invariant
            j <= 4,
            block@.len() == before.len(),
            before.len() >= 16,
            forall|k: int| 0 <= k < 16 ==> -0x07ff_ffff <= #[trigger] before[k] <= 0x07ff_ffff,
            forall|r: int, c: int|
                0 <= r < j && 0 <= c < 4 ==> #[trigger] block@[4 * r + c] == wht_at(before, r, c),
            forall|r: int, c: int|
                j <= r < 4 && 0 <= c < 4 ==> #[trigger] block@[4 * r + c] == wht_columns(
                    before,
                    r,
                    c,
                ),
            forall|k: int| 16 <= k < before.len() ==> block@[k] == before[k],
        decreases 4 - j,
    {
        assert(block@[4 * j as int + 0] == wht_columns(before, j as int, 0));
        assert(block@[4 * j as int + 1] == wht_columns(before, j as int, 1));
        assert(block@[4 * j as int + 2] == wht_columns(before, j as int, 2));
        assert(block@[4 * j as int + 3] == wht_columns(before, j as int, 3));
        let p0: i64 = block[4 * j] as i64;
        let p1: i64 = block[4 * j + 1] as i64;
        let p2: i64 = block[4 * j + 2] as i64;
        let p3: i64 = block[4 * j + 3] as i64;
        let a1: i64 = p0 + p3;
        let b1: i64 = p1 + p2;
        let c1: i64 = p1 - p2;
        let d1: i64 = p0 - p3;
        block.set(4 * j, floor_8(a1 + b1 + 3) as i32);
        block.set(4 * j + 1, floor_8(c1 + d1 + 3) as i32);
        block.set(4 * j + 2, floor_8(a1 - b1 + 3) as i32);
        block.set(4 * j + 3, floor_8(d1 - c1 + 3) as i32);
        j = j + 1;
    }
}

/// The greatest magnitude of a forward transform input.
pub const MAX_RESIDUAL: i16 = 7900;

/// First stage of the forward transform: value `k` of four inputs.
pub open spec fn fdct_stage(x0: int, x1: int, x2: int, x3: int, k: int) -> int {
    let a = x0 + x3;
    let b = x1 + x2;
    let c = x1 - x2;
    let d = x0 - x3;
    if k == 0 {
        (a + b) * 8
    } else if k == 1 {
        (d * 2217 + c * 5352 + 14500) / 4096
    } else if k == 2 {
        (a - b) * 8
    } else {
        (d * 5352 - c * 2217 + 7500) / 4096
    }
}

/// Second stage of the forward transform: value `k` of four first-stage values.
pub open spec fn fdct_second(t0: int, t1: int, t2: int, t3: int, k: int) -> int {
    let a = t0 + t3;
    let b = t1 + t2;
    let c = t1 - t2;
    let d = t0 - t3;
    if k == 0 {
        wrap16((a + b + 7) / 16)
    } else if k == 1 {
        (d * 2217 + c * 5352 + 12000) / 65536 + if d != 0 {
            1int
        } else {
            0
        }
    } else if k == 2 {
        wrap16((a - b + 7) / 16)
    } else {
        (d * 5352 - c * 2217 + 51000) / 65536
    }
}

/// Both stages: value `k` of four inputs.
pub open spec fn fdct_line(x0: int, x1: int, x2: int, x3: int, k: int) -> int {
    fdct_second(
        fdct_stage(x0, x1, x2, x3, 0),
        fdct_stage(x0, x1, x2, x3, 1),
        fdct_stage(x0, x1, x2, x3, 2),
        fdct_stage(x0, x1, x2, x3, 3),
        k,
    )
}

/// Entry `4 * k + i` of the forward transform.
pub open spec fn fdct_at(x: Seq<i16>, k: int, i: int) -> int {
    fdct_line(x[4 * i] as int, x[4 * i + 1] as int, x[4 * i + 2] as int, x[4 * i + 3] as int, k)
}

/// The forward transform.
pub open spec fn fdct_spec(x: Seq<i16>) -> Seq<i16> {
    Seq::new(16, |j: int| fdct_at(x, j / 4, j % 4) as i16)
}

pub open spec fn is_residual(x: Seq<i16>) -> bool {
    x.len() == 16 && forall|k: int|
        0 <= k < 16 ==> -MAX_RESIDUAL <= #[trigger] x[k] <= MAX_RESIDUAL
}

/// The four first-stage values of a row.
fn fdct_first(x0: i16, x1: i16, x2: i16, x3: i16) -> (r: (i64, i64, i64, i64))
    requires
        -MAX_RESIDUAL <= x0 <= MAX_RESIDUAL,
        -MAX_RESIDUAL <= x1 <= MAX_RESIDUAL,
        -MAX_RESIDUAL <= x2 <= MAX_RESIDUAL,
        -MAX_RESIDUAL <= x3 <= MAX_RESIDUAL,
    ensures
        r.0 == fdct_stage(x0 as int, x1 as int, x2 as int, x3 as int, 0),
        r.1 == fdct_stage(x0 as int, x1 as int, x2 as int, x3 as int, 1),
        r.2 == fdct_stage(x0 as int, x1 as int, x2 as int, x3 as int, 2),
        r.3 == fdct_stage(x0 as int, x1 as int, x2 as int, x3 as int, 3),
        -252800 <= r.0 <= 252800,
        -29210 <= r.1 <= 29210,
        -252800 <= r.2 <= 252800,
        -29210 <= r.3 <= 29210,
{
    let a: i64 = x0 as i64 + x3 as i64;
    let b: i64 = x1 as i64 + x2 as i64;
    let c: i64 = x1 as i64 - x2 as i64;
    let d: i64 = x0 as i64 - x3 as i64;
    (
        (a + b) * 8,
        floor_4096(d * 2217 + c * 5352 + 14500),
        (a - b) * 8,
        floor_4096(d * 5352 - c * 2217 + 7500),
    )
}

/// The four second-stage values.
fn fdct_last(t0: i64, t1: i64, t2: i64, t3: i64) -> (r: (i16, i16, i16, i16))
    requires
        -252800 <= t0 <= 252800,
        -29210 <= t1 <= 29210,
        -252800 <= t2 <= 252800,
        -29210 <= t3 <= 29210,
    ensures
        r.0 == fdct_second(t0 as int, t1 as int, t2 as int, t3 as int, 0),
        r.1 == fdct_second(t0 as int, t1 as int, t2 as int, t3 as int, 1),
        r.2 == fdct_second(t0 as int, t1 as int, t2 as int, t3 as int, 2),
        r.3 == fdct_second(t0 as int, t1 as int, t2 as int, t3 as int, 3),
{
    let a: i64 = t0 + t3;
    let b: i64 = t1 + t2;
    let c: i64 = t1 - t2;
    let d: i64 = t0 - t3;
    let extra: i64 = if d != 0 {
        1
    } else {
        0
    };
    (
        wrap_i16(floor_16(a + b + 7)),
        (floor_65536(d * 2217 + c * 5352 + 12000) + extra) as i16,
        wrap_i16(floor_16(a - b + 7)),
        floor_65536(d * 5352 - c * 2217 + 51000) as i16,
    )
}

/// The forward transform of a residual block.
pub fn fdct4x4(input: &[i16; 16]) -> (out: [i16; 16])
    requires
        is_residual(input@),
    ensures
        out@ == fdct_spec(input@),
{
    let mut out: [i16; 16] = [0i16; 16];
    let ghost x = input@;
    let mut i: usize = 0;
    while i < 4
        invariant
            i <= 4,
            x == input@,
            is_residual(x),
            out@.len() == 16,
            forall|k: int, j: int|
                0 <= k < 4 && 0 <= j < i ==> #[trigger] out@[4 * k + j] == fdct_at(x, k, j),
        decreases 4 - i,
    {
        assert(-MAX_RESIDUAL <= x[4 * i] <= MAX_RESIDUAL);
        assert(-MAX_RESIDUAL <= x[4 * i + 1] <= MAX_RESIDUAL);
        assert(-MAX_RESIDUAL <= x[4 * i + 2] <= MAX_RESIDUAL);
        assert(-MAX_RESIDUAL <= x[4 * i + 3] <= MAX_RESIDUAL);
        let (t0, t1, t2, t3) = fdct_first(
            input[4 * i],
            input[4 * i + 1],
            input[4 * i + 2],
            input[4 * i + 3],
        );
        let (o0, o1, o2, o3) = fdct_last(t0, t1, t2, t3);
        let ghost f0 = fdct_at(x, 0, i as int);
        let ghost f1 = fdct_at(x, 1, i as int);
        let ghost f2 = fdct_at(x, 2, i as int);
        let ghost f3 = fdct_at(x, 3, i as int);
        assert(o0 == f0 && o1 == f1 && o2 == f2 && o3 == f3);
        out[i] = o0;
        out[4 + i] = o1;
        out[8 + i] = o2;
        out[12 + i] = o3;
        i = i + 1;
    }
    assert(out@ =~= fdct_spec(x)) by {
        assert forall|j: int| 0 <= j < 16 implies out@[j] == fdct_spec(x)[j] by {
            let k = j / 4;
            let c = j % 4;
            assert(out@[4 * k + c] == fdct_at(x, k, c));
        }
    }
    out
}

/// A coefficient divided by its quantizer step, rounded to nearest, at most 2047 in
/// magnitude.
pub open spec fn quantized(c: i16, q: int) -> int {
    let m = if c < 0 {
        -c
    } else {
        c as int
    };
    let v = (m + q / 2) / q;
    let w = if v > 2047 {
        2047
    } else {
        v
    };
    if c < 0 {
        -w
    } else {
        w
    }
}

pub open spec fn quantize_spec(dct: Seq<i16>, q_idx: int) -> Seq<i16> {
    Seq::new(16, |i: int| quantized(dct[i], quant_step(q_idx, i)) as i16)
}

/// Quantized coefficients are at most 2047 in magnitude.
pub proof fn lemma_quantized_range(dct: Seq<i16>, q_idx: int)
    requires
        0 <= q_idx < 128,
    ensures
        forall|i: int| 0 <= i < 16 ==> -2047 <= #[trigger] quantize_spec(dct, q_idx)[i] <= 2047,
{
    assert forall|i: int| 0 <= i < 16 implies -2047 <= #[trigger] quantize_spec(dct, q_idx)[i]
        <= 2047 by {
        let q = quant_step(q_idx, i);
        lemma_quant_step(q_idx, i);
        let c = dct[i];
        let m = if c < 0 {
            -c
        } else {
            c as int
        };
        let v = (m + q / 2) / q;
        assert(v >= 0) by (nonlinear_arith)
            requires
                v == (m + q / 2) / q,
                m >= 0,
                q >= 4,
        ;
    }
}

pub open spec fn any_nonzero(c: Seq<i16>) -> bool {
    exists|i: int| 0 <= i < c.len() && #[trigger] c[i] != 0
}

/// Quantizes a block and tells whether anything is left of it.
pub fn quantize_block(dct: &[i16; 16], q_idx: usize) -> (r: ([i16; 16], bool))
    requires
        q_idx < 128,
    ensures
        r.0@ == quantize_spec(dct@, q_idx as int),
        r.1 == any_nonzero(r.0@),
        forall|i: int| 0 <= i < 16 ==> -2047 <= #[trigger] r.0@[i] <= 2047,
{
    let dc_q: i32 = dc_step(q_idx);
    let ac_q: i32 = ac_step(q_idx);
    let mut out: [i16; 16] = [0i16; 16];
    let mut any: bool = false;
    let mut i: usize = 0;
    while i < 16
        invariant
            i <= 16,
            dct@.len() == 16,
            out@.len() == 16,
            4 <= dc_q <= 284,
            4 <= ac_q <= 284,
            dc_q == quant_step(q_idx as int, 0),
            forall|k: int| k != 0 ==> ac_q == #[trigger] quant_step(q_idx as int, k),
            forall|k: int|
                0 <= k < i ==> #[trigger] out@[k] == quantized(
                    dct@[k],
                    quant_step(q_idx as int, k),
                ) && -2047 <= out@[k] <= 2047,
            forall|k: int| i <= k < 16 ==> #[trigger] out@[k] == 0,
            any == any_nonzero(out@),
        decreases 16 - i,
    {
        let q: u32 = if i == 0 {
            dc_q as u32
        } else {
            ac_q as u32
        };
        let v: i32 = dct[i] as i32;
        let m: u32 = if v < 0 {
            (-v) as u32
        } else {
            v as u32
        };
        let full: u32 = (m + q / 2) / q;
        let w: i16 = if full > 2047 {
            2047
        } else {
            full as i16
        };
        let signed: i16 = if v < 0 {
            -w
        } else {
            w
        };
        let ghost prev = out@;
        out[i] = signed;
        if w != 0 {
            any = true;
        }
        proof {
            assert(q == quant_step(q_idx as int, i as int));
            if w != 0 {
                assert(out@[i as int] != 0);
            } else {
                assert(signed == 0);
                assert(out@ =~= prev);
            }
            if v == 0 {
                let qi = q as int;
                let fi = full as int;
                assert(fi == 0) by (nonlinear_arith)
                    requires
                        fi == (qi / 2) / qi,
                        qi >= 4,
                ;
            }
        }
        i = i + 1;
    }
    assert(out@ =~= quantize_spec(dct@, q_idx as int));
    (out, any)
}

pub open spec fn dequantize_spec(coeffs: Seq<i16>, q_idx: int) -> Seq<i32> {
    Seq::new(16, |i: int| (coeffs[i] * quant_step(q_idx, i)) as i32)
}

/// The coefficients of quantized ones.
pub fn dequantize_block(coeffs: &[i16; 16], q_idx: usize) -> (out: Vec<i32>)
    requires
        q_idx < 128,
    ensures
        out@ == dequantize_spec(coeffs@, q_idx as int),
{
    let dc_q: i32 = dc_step(q_idx);
    let ac_q: i32 = ac_step(q_idx);
    let mut out: Vec<i32> = Vec::new();
    let mut i: usize = 0;
    while i < 16
        invariant
            i <= 16,
            coeffs@.len() == 16,
            out@.len() == i,
            4 <= dc_q <= 284,
            4 <= ac_q <= 284,
            dc_q == quant_step(q_idx as int, 0),
            forall|k: int| k != 0 ==> ac_q == #[trigger] quant_step(q_idx as int, k),
            forall|k: int|
                0 <= k < i ==> #[trigger] out@[k] == (coeffs@[k] * quant_step(q_idx as int, k))
                    as i32,
        decreases 16 - i,
    {
        let q: i32 = if i == 0 {
            dc_q
        } else {
            ac_q
        };
        let c: i32 = coeffs[i] as i32;
        assert(-0x8000 * 284 <= c * q <= 0x8000 * 284) by (nonlinear_arith)
            requires
                4 <= q <= 284,
                -0x8000 <= c <= 0x8000,
        ;
        assert(q == quant_step(q_idx as int, i as int));
        out.push(c * q);
        i = i + 1;
    }
    assert(out@ =~= dequantize_spec(coeffs@, q_idx as int));
    out
}

/// The inverse transform as a sequence.
pub open spec fn idct_spec(b: Seq<i32>) -> Seq<i32> {
    Seq::new(16, |j: int| idct_at(b, j / 4, j % 4) as i32)
}

/// A block of pixels from a prediction and quantized coefficients.
pub open spec fn reconstruct_spec(coeffs: Seq<i16>, q_idx: int, pred: int) -> Seq<u8> {
    let residue = idct_spec(dequantize_spec(coeffs, q_idx));
    Seq::new(16, |i: int| clamp_byte_spec(pred + residue[i]) as u8)
}

pub fn reconstruct_from_coeffs(coeffs: &[i16; 16], q_idx: usize, pred: u8) -> (out: [u8; 16])
    requires
        q_idx < 128,
    ensures
        out@ == reconstruct_spec(coeffs@, q_idx as int, pred as int),
{
    let mut residue: Vec<i32> = dequantize_block(coeffs, q_idx);
    let ghost before = residue@;
    idct4x4(&mut residue);
    proof {
        assert(residue@ =~= idct_spec(before)) by {
            assert forall|j: int| 0 <= j < 16 implies residue@[j] == idct_spec(before)[j] by {
                assert(residue@[4 * (j / 4) + j % 4] == idct_at(before, j / 4, j % 4));
            }
        }
    }
    let mut out: [u8; 16] = [0u8; 16];
    let mut i: usize = 0;
    while i < 16
        invariant
            i <= 16,
            out@.len() == 16,
            residue@.len() == 16,
            forall|k: int|
                0 <= k < i ==> #[trigger] out@[k] == clamp_byte_spec(pred + residue@[k]),
        decreases 16 - i,
    {
        let b: u8 = clamp_byte(pred as i64 + residue[i] as i64);
        out[i] = b;
        i = i + 1;
    }
    assert(out@ =~= reconstruct_spec(coeffs@, q_idx as int, pred as int));
    out
}

pub open spec fn residual_spec(src: Seq<u8>, pred: int) -> Seq<i16> {
    Seq::new(16, |i: int| (src[i] - pred) as i16)
}

pub fn residual_from_prediction(src: &[u8; 16], pred: u8) -> (out: [i16; 16])
    ensures
        out@ == residual_spec(src@, pred as int),
        is_residual(out@),
{
    let mut out: [i16; 16] = [0i16; 16];
    let mut i: usize = 0;
    while i < 16
        invariant
            i <= 16,
            src@.len() == 16,
            out@.len() == 16,
            forall|k: int| 0 <= k < i ==> #[trigger] out@[k] == src@[k] - pred,
        decreases 16 - i,
    {
        let d: i16 = src[i] as i16 - pred as i16;
        out[i] = d;
        i = i + 1;
    }
    assert(out@ =~= residual_spec(src@, pred as int));
    assert forall|k: int| 0 <= k < 16 implies -MAX_RESIDUAL <= #[trigger] out@[k]
        <= MAX_RESIDUAL by {}
    out
}

} // verus!
