//! Which pixels a block stands for, in which order blocks come, and what surrounds them.
use crate::jxl::grid::lemma_flat_injective;
use crate::vp8::macroblock::{
    chroma_run, coded_block, image_run, luma_run, macroblock_run, reconstructed, MacroBlockModel,
    Planes,
};
use crate::vp8::partitions::{
    flag, left_flag, plane_blocks, plane_side, token_partitions, top_flag, twos,
};
use crate::vp8::planes::{
    bdc_prediction, block_at, block_fits, block_index, dc_prediction, lemma_block_pixel, lemma_cell,
    lemma_put_len, put_block,
};
use crate::vp8::tables::{extra_prob, lemma_extra_falls};
use crate::vp8::tokens::{token_base, token_extra_bits, token_of};
use crate::vp8::transform::{any_nonzero, reconstruct_spec};
use crate::vp8::transform_laws::lemma_predicted_block;
use vstd::arithmetic::power2::{lemma2_to64, pow2};
use vstd::prelude::*;

verus! {

// ---- blocks of pixels ----
/// A block holds four pixels of four rows, row by row.
pub proof fn lemma_block_taken(src: Seq<u8>, stride: int, x: int, y: int, i: int, j: int)
    requires
        0 <= i < 4,
        0 <= j < 4,
    ensures
        block_at(src, stride, x, y)[4 * j + i] == src[(y + j) * stride + (x + i)],
{
    assert((4 * j + i) / 4 == j && (4 * j + i) % 4 == i);
}

proof fn lemma_put_some(
    dst: Seq<u8>,
    stride: int,
    x: int,
    y: int,
    block: Seq<u8>,
    n: nat,
    px: int,
    py: int,
)
    requires
        n <= 16,
        block_fits(dst.len() as int, stride, x, y, 4),
        0 <= px < stride,
        0 <= py,
        0 <= py * stride + px < dst.len(),
    ensures
        ({
            let v = put_block(dst, stride, x, y, block, n)[py * stride + px];
            let inside = x <= px < x + 4 && y <= py < y + 4;
            &&& inside && 4 * (py - y) + (px - x) < n ==> v == block[4 * (py - y) + (px - x)]
            &&& !(inside && 4 * (py - y) + (px - x) < n) ==> v == dst[py * stride + px]
        }),
    decreases n,
{
    if n > 0 {
        let k = n - 1;
        lemma_put_some(dst, stride, x, y, block, (n - 1) as nat, px, py);
        lemma_put_len(dst, stride, x, y, block, (n - 1) as nat);
        lemma_block_pixel(dst.len() as int, stride, x, y, 4, k % 4, k / 4);
        let at = block_index(stride, x, y, k);
        assert(at == (y + k / 4) * stride + (x + k % 4));
        if at == py * stride + px {
            lemma_flat_injective(px, py, x + k % 4, y + k / 4, stride);
        }
        if px == x + k % 4 && py == y + k / 4 {
            assert(at == py * stride + px);
        }
    }
}

/// Putting a block changes the pixels of the block and no others.
pub proof fn lemma_block_put(
    dst: Seq<u8>,
    stride: int,
    x: int,
    y: int,
    block: Seq<u8>,
    px: int,
    py: int,
)
    requires
        block_fits(dst.len() as int, stride, x, y, 4),
        0 <= px < stride,
        0 <= py,
        0 <= py * stride + px < dst.len(),
    ensures
        ({
            let v = put_block(dst, stride, x, y, block, 16)[py * stride + px];
            let inside = x <= px < x + 4 && y <= py < y + 4;
            &&& inside ==> v == block[4 * (py - y) + (px - x)]
            &&& !inside ==> v == dst[py * stride + px]
        }),
{
    lemma_put_some(dst, stride, x, y, block, 16, px, py);
}

proof fn lemma_sub_fits(len: int, stride: int, x: int, y: int, k: int)
    requires
        block_fits(len, stride, x, y, 16),
        0 <= k < 16,
    ensures
        block_fits(len, stride, x + k % 4 * 4, y + k / 4 * 4, 4),
{
    let h = k / 4 * 4 + 4;
    assert((y + h) * stride <= (y + 16) * stride) by (nonlinear_arith)
        requires
            h <= 16,
            stride >= 0,
    ;
    assert(y + k / 4 * 4 + 4 == y + h);
}

proof fn lemma_elsewhere(mb_x: int, mb_y: int, k: int, px: int, py: int)
    requires
        0 <= k < 16,
        0 <= px,
        0 <= py,
        px / 16 != mb_x || py / 16 != mb_y || k < 4 * (py % 16 / 4) + px % 16 / 4,
    ensures
        !(mb_x * 16 + k % 4 * 4 <= px < mb_x * 16 + k % 4 * 4 + 4 && mb_y * 16 + k / 4 * 4 <= py
            < mb_y * 16 + k / 4 * 4 + 4),
{
    let a = k % 4;
    let b = k / 4;
    if mb_x * 16 + a * 4 <= px < mb_x * 16 + a * 4 + 4 && mb_y * 16 + b * 4 <= py < mb_y * 16 + b
        * 4 + 4 {
        assert(px / 16 == mb_x && py / 16 == mb_y);
        assert(px % 16 == px - 16 * mb_x);
        assert(py % 16 == py - 16 * mb_y);
        assert(px % 16 / 4 == a);
        assert(py % 16 / 4 == b);
    }
}

/// Luma blocks come row by row: after some blocks of a macroblock, only pixels of those blocks have
/// changed.
pub proof fn lemma_luma_order(
    src: Seq<u8>,
    recon: Seq<u8>,
    stride: int,
    mb_x: int,
    mb_y: int,
    q_idx: int,
    n: nat,
    px: int,
    py: int,
)
    requires
        n <= 16,
        block_fits(recon.len() as int, stride, 16 * mb_x, 16 * mb_y, 16),
        0 <= px < stride,
        0 <= py,
        0 <= py * stride + px < recon.len(),
        px / 16 != mb_x || py / 16 != mb_y || n <= 4 * (py % 16 / 4) + px % 16 / 4,
    ensures
        luma_run(src, recon, stride, mb_x, mb_y, q_idx, n).0[py * stride + px] == recon[py * stride
            + px],
        luma_run(src, recon, stride, mb_x, mb_y, q_idx, n).0.len() == recon.len(),
    decreases n,
{
    if n > 0 {
        let before = luma_run(src, recon, stride, mb_x, mb_y, q_idx, (n - 1) as nat).0;
        let k = n - 1;
        let x = mb_x * 16 + k % 4 * 4;
        let y = mb_y * 16 + k / 4 * 4;
        lemma_luma_order(src, recon, stride, mb_x, mb_y, q_idx, (n - 1) as nat, px, py);
        lemma_sub_fits(recon.len() as int, stride, 16 * mb_x, 16 * mb_y, k);
        let after = luma_run(src, recon, stride, mb_x, mb_y, q_idx, n).0;
        let block = reconstruct_spec(
            coded_block(src, stride, x, y, bdc_prediction(before, stride, x, y), q_idx),
            q_idx,
            bdc_prediction(before, stride, x, y),
        );
        assert(after == put_block(before, stride, x, y, block, 16)) by {
            reveal(reconstructed);
        }
        lemma_elsewhere(mb_x, mb_y, k, px, py);
        lemma_block_put(before, stride, x, y, block, px, py);
        lemma_put_len(before, stride, x, y, block, 16);
    }
}

// ---- surroundings ----
/// The block of a plane at a column and row of blocks of the picture.
pub open spec fn picture_block(
    mbs: Seq<MacroBlockModel>,
    mb_width: int,
    plane: int,
    bx: int,
    by: int,
) -> Seq<i16> {
    let side = plane_side(plane);
    plane_blocks(mbs[by / side * mb_width + bx / side], plane)[by % side * side + bx % side]
}

/// The context of a block is told by the blocks to its left and above it in the picture, whatever
/// macroblocks they belong to; beyond the edges there are none.
pub proof fn lemma_neighbours(
    mbs: Seq<MacroBlockModel>,
    mb_width: int,
    plane: int,
    x: int,
    y: int,
    i: int,
    j: int,
)
    requires
        0 <= plane < 3,
        0 <= x < mb_width,
        0 <= y,
        0 <= i < plane_side(plane),
        0 <= j < plane_side(plane),
    ensures
        ({
            let side = plane_side(plane);
            let bx = side * x + i;
            let by = side * y + j;
            &&& left_flag(mbs, mb_width, plane, x, y, side * j + i) == if bx == 0 {
                0
            } else {
                flag(any_nonzero(picture_block(mbs, mb_width, plane, bx - 1, by)))
            }
            &&& top_flag(mbs, mb_width, plane, x, y, side * j + i) == if by == 0 {
                0
            } else {
                flag(any_nonzero(picture_block(mbs, mb_width, plane, bx, by - 1)))
            }
        }),
{
    if plane == 0 {
        lemma_neighbours_luma(mbs, mb_width, x, y, i, j);
    } else {
        lemma_neighbours_chroma(mbs, mb_width, plane, x, y, i, j);
    }
}

proof fn lemma_neighbours_luma(
    mbs: Seq<MacroBlockModel>,
    mb_width: int,
    x: int,
    y: int,
    i: int,
    j: int,
)
    requires
        0 <= x < mb_width,
        0 <= y,
        0 <= i < 4,
        0 <= j < 4,
    ensures
        left_flag(mbs, mb_width, 0, x, y, 4 * j + i) == if 4 * x + i == 0 {
            0
        } else {
            flag(any_nonzero(picture_block(mbs, mb_width, 0, 4 * x + i - 1, 4 * y + j)))
        },
        top_flag(mbs, mb_width, 0, x, y, 4 * j + i) == if 4 * y + j == 0 {
            0
        } else {
            flag(any_nonzero(picture_block(mbs, mb_width, 0, 4 * x + i, 4 * y + j - 1)))
        },
{
    let k = 4 * j + i;
    assert(k % 4 == i && k / 4 == j);
    assert((4 * x + i) / 4 == x && (4 * x + i) % 4 == i);
    assert((4 * y + j) / 4 == y && (4 * y + j) % 4 == j);
    if i > 0 {
        assert((4 * x + i - 1) / 4 == x && (4 * x + i - 1) % 4 == i - 1);
    } else {
        assert((4 * x + i - 1) / 4 == x - 1 && (4 * x + i - 1) % 4 == 3);
    }
    if j > 0 {
        assert((4 * y + j - 1) / 4 == y && (4 * y + j - 1) % 4 == j - 1);
    } else {
        assert((4 * y + j - 1) / 4 == y - 1 && (4 * y + j - 1) % 4 == 3);
    }
    assert(y * mb_width + (x - 1) == y * mb_width + x - 1);
}

proof fn lemma_neighbours_chroma(
    mbs: Seq<MacroBlockModel>,
    mb_width: int,
    plane: int,
    x: int,
    y: int,
    i: int,
    j: int,
)
    requires
        plane == 1 || plane == 2,
        0 <= x < mb_width,
        0 <= y,
        0 <= i < 2,
        0 <= j < 2,
    ensures
        left_flag(mbs, mb_width, plane, x, y, 2 * j + i) == if 2 * x + i == 0 {
            0
        } else {
            flag(any_nonzero(picture_block(mbs, mb_width, plane, 2 * x + i - 1, 2 * y + j)))
        },
        top_flag(mbs, mb_width, plane, x, y, 2 * j + i) == if 2 * y + j == 0 {
            0
        } else {
            flag(any_nonzero(picture_block(mbs, mb_width, plane, 2 * x + i, 2 * y + j - 1)))
        },
{
    let k = 2 * j + i;
    assert(k % 2 == i && k / 2 == j);
    assert((2 * x + i) / 2 == x && (2 * x + i) % 2 == i);
    assert((2 * y + j) / 2 == y && (2 * y + j) % 2 == j);
    let left = picture_block(mbs, mb_width, plane, 2 * x + i - 1, 2 * y + j);
    if i > 0 {
        assert((2 * x + i - 1) / 2 == x && (2 * x + i - 1) % 2 == i - 1);
        assert(left == plane_blocks(mbs[y * mb_width + x], plane)[j * 2 + (i - 1)]);
        assert(j * 2 + (i - 1) == k - 1);
    } else {
        assert((2 * x + i - 1) / 2 == x - 1 && (2 * x + i - 1) % 2 == 1);
        assert(left == plane_blocks(mbs[y * mb_width + (x - 1)], plane)[j * 2 + 1]);
        assert(j * 2 + 1 == k + 2 - 1);
    }
    if j > 0 {
        assert((2 * y + j - 1) / 2 == y && (2 * y + j - 1) % 2 == j - 1);
    } else {
        assert((2 * y + j - 1) / 2 == y - 1 && (2 * y + j - 1) % 2 == 1);
    }
    assert(y * mb_width + (x - 1) == y * mb_width + x - 1);
}

// ---- tokens ----
/// Categories of magnitudes adjoin: each begins where the extra bits of the one before end. The
/// bits of a magnitude tell it from the others of its category.
pub proof fn lemma_categories(magnitude: int)
    requires
        0 <= magnitude <= 2114,
    ensures
        ({
            let t = token_of(magnitude);
            &&& t.1 == token_extra_bits(t.0)
            &&& token_base(t.0) + t.2 == magnitude
            &&& 0 <= t.2 < pow2(t.1)
            &&& magnitude <= 4 ==> t.0 == magnitude
            &&& magnitude > 4 ==> t.0 > 4
        }),
        forall|t: int|
            0 <= t < 10 ==> #[trigger] token_base(t + 1) == token_base(t) + pow2(
                token_extra_bits(t),
            ),
        forall|t: int| 5 <= t < 10 ==> #[trigger] token_extra_bits(t) == t - 4,
        token_base(10) + pow2(token_extra_bits(10)) == 2115,
{
    lemma2_to64();
    assert(pow2(11) == 2048);
    assert forall|t: int| 0 <= t < 10 implies #[trigger] token_base(t + 1) == token_base(t) + pow2(
        token_extra_bits(t),
    ) by {
        if t <= 4 {
            assert(pow2(0) == 1);
        } else if t == 5 {
            assert(pow2(1) == 2);
        } else if t == 6 {
            assert(pow2(2) == 4);
        } else if t == 7 {
            assert(pow2(3) == 8);
        } else if t == 8 {
            assert(pow2(4) == 16);
        } else {
            assert(pow2(5) == 32);
        }
    }
}

/// The first extra bits of a category are the least likely to be set.
pub proof fn lemma_extra_odds(category: int, k: int)
    requires
        0 <= category < 6,
        0 <= k,
        k + 1 < token_extra_bits(category + 5),
    ensures
        extra_prob(category, k) >= extra_prob(category, k + 1) >= 128,
{
    lemma_extra_falls(category, k);
}

// ---- partitions ----
/// As many partitions as rows of macroblocks allow, up to eight, and a power of two that the header
/// can tell.
pub proof fn lemma_partition_number(rows: int)
    requires
        1 <= rows,
    ensures
        ({
            let n = token_partitions(rows);
            &&& n <= rows
            &&& n == 8 || rows < 2 * n
            &&& 1 <= n <= 8
            &&& 0 <= twos(n) <= 3
            &&& pow2(twos(n) as nat) == n
        }),
{
    lemma2_to64();
    reveal_with_fuel(twos, 5);
    assert(twos(1) == 0);
    assert(twos(2) == 1);
    assert(twos(4) == 2);
    assert(twos(8) == 3);
}

proof fn lemma_chroma_fits(len: int, stride: int, x: int, y: int, k: int)
    requires
        block_fits(len, stride, x, y, 8),
        0 <= k < 4,
    ensures
        block_fits(len, stride, x + k % 2 * 4, y + k / 2 * 4, 4),
{
    let h = k / 2 * 4 + 4;
    assert((y + h) * stride <= (y + 8) * stride) by (nonlinear_arith)
        requires
            h <= 8,
            stride >= 0,
    ;
    assert(y + k / 2 * 4 + 4 == y + h);
}

proof fn lemma_chroma_elsewhere(mb_x: int, mb_y: int, k: int, px: int, py: int)
    requires
        0 <= k < 4,
        0 <= px,
        0 <= py,
        px / 8 != mb_x || py / 8 != mb_y || k < 2 * (py % 8 / 4) + px % 8 / 4,
    ensures
        !(mb_x * 8 + k % 2 * 4 <= px < mb_x * 8 + k % 2 * 4 + 4 && mb_y * 8 + k / 2 * 4 <= py
            < mb_y * 8 + k / 2 * 4 + 4),
{
    let a = k % 2;
    let b = k / 2;
    if mb_x * 8 + a * 4 <= px < mb_x * 8 + a * 4 + 4 && mb_y * 8 + b * 4 <= py < mb_y * 8 + b * 4
        + 4 {
        assert(px / 8 == mb_x && py / 8 == mb_y);
        assert(px % 8 == px - 8 * mb_x);
        assert(py % 8 == py - 8 * mb_y);
        assert(px % 8 / 4 == a);
        assert(py % 8 / 4 == b);
    }
}

/// Chroma blocks come row by row too, two to a row.
pub proof fn lemma_chroma_order(
    src: Seq<u8>,
    recon: Seq<u8>,
    stride: int,
    mb_x: int,
    mb_y: int,
    pred: int,
    q_idx: int,
    n: nat,
    px: int,
    py: int,
)
    requires
        n <= 4,
        block_fits(recon.len() as int, stride, 8 * mb_x, 8 * mb_y, 8),
        0 <= px < stride,
        0 <= py,
        0 <= py * stride + px < recon.len(),
        px / 8 != mb_x || py / 8 != mb_y || n <= 2 * (py % 8 / 4) + px % 8 / 4,
    ensures
        chroma_run(src, recon, stride, mb_x, mb_y, pred, q_idx, n).0[py * stride + px] == recon[py
            * stride + px],
        chroma_run(src, recon, stride, mb_x, mb_y, pred, q_idx, n).0.len() == recon.len(),
    decreases n,
{
    if n > 0 {
        let before = chroma_run(src, recon, stride, mb_x, mb_y, pred, q_idx, (n - 1) as nat).0;
        let k = n - 1;
        let x = mb_x * 8 + k % 2 * 4;
        let y = mb_y * 8 + k / 2 * 4;
        lemma_chroma_order(src, recon, stride, mb_x, mb_y, pred, q_idx, (n - 1) as nat, px, py);
        lemma_chroma_fits(recon.len() as int, stride, 8 * mb_x, 8 * mb_y, k);
        let after = chroma_run(src, recon, stride, mb_x, mb_y, pred, q_idx, n).0;
        let block = reconstruct_spec(
            coded_block(src, stride, x, y, pred, q_idx),
            q_idx,
            pred,
        );
        assert(after == put_block(before, stride, x, y, block, 16)) by {
            reveal(reconstructed);
        }
        lemma_chroma_elsewhere(mb_x, mb_y, k, px, py);
        lemma_block_put(before, stride, x, y, block, px, py);
        lemma_put_len(before, stride, x, y, block, 16);
    }
}

/// Macroblocks come row by row: after some of them, luma beyond those is as it was.
pub proof fn lemma_picture_order(
    src: Planes,
    start: Planes,
    mb_width: int,
    mb_height: int,
    q_idx: int,
    n: nat,
    px: int,
    py: int,
)
    requires
        1 <= mb_width,
        1 <= mb_height,
        start.y.len() == (mb_width * 16) * (mb_height * 16),
        n <= mb_width * mb_height,
        0 <= px < mb_width * 16,
        0 <= py < mb_height * 16,
        n <= py / 16 * mb_width + px / 16,
    ensures
        image_run(src, start, mb_width, q_idx, n).0.y[py * (mb_width * 16) + px] == start.y[py * (
        mb_width * 16) + px],
        image_run(src, start, mb_width, q_idx, n).0.y.len() == start.y.len(),
    decreases n,
{
    if n > 0 {
        let k = n - 1;
        let stride = mb_width * 16;
        lemma_picture_order(src, start, mb_width, mb_height, q_idx, (n - 1) as nat, px, py);
        let before = image_run(src, start, mb_width, q_idx, (n - 1) as nat).0.y;
        let mb_x = k % mb_width;
        let mb_y = k / mb_width;
        vstd::arithmetic::div_mod::lemma_fundamental_div_mod(k, mb_width);
        vstd::arithmetic::div_mod::lemma_mod_bound(k, mb_width);
        assert(0 <= mb_y < mb_height) by (nonlinear_arith)
            requires
                k == mb_width * mb_y + mb_x,
                0 <= mb_x < mb_width,
                0 <= k < mb_width * mb_height,
        ;
        assert(mb_width * mb_y == mb_y * mb_width) by (nonlinear_arith);
        assert((mb_y * 16 + 16) * stride <= stride * (mb_height * 16)) by (nonlinear_arith)
            requires
                mb_y + 1 <= mb_height,
                stride >= 0,
        ;
        assert(block_fits(before.len() as int, stride, 16 * mb_x, 16 * mb_y, 16));
        lemma_cell(py, px, stride, mb_height * 16);
        lemma_luma_order(src.y, before, stride, mb_x, mb_y, q_idx, 16, px, py);
    }
}

proof fn lemma_chroma_coded(
    src: Seq<u8>,
    recon: Seq<u8>,
    stride: int,
    mb_x: int,
    mb_y: int,
    pred: int,
    q_idx: int,
    n: nat,
    k: int,
)
    requires
        0 <= k < n,
    ensures
        ({
            let blocks = chroma_run(src, recon, stride, mb_x, mb_y, pred, q_idx, n).1;
            &&& blocks.len() == n
            &&& blocks[k] == coded_block(
                src,
                stride,
                mb_x * 8 + k % 2 * 4,
                mb_y * 8 + k / 2 * 4,
                pred,
                q_idx,
            )
        }),
    decreases n,
{
    reveal_with_fuel(chroma_run, 2);
    let prev = chroma_run(src, recon, stride, mb_x, mb_y, pred, q_idx, (n - 1) as nat).1;
    let now = chroma_run(src, recon, stride, mb_x, mb_y, pred, q_idx, n).1;
    assert(now.drop_last() =~= prev);
    if k < n - 1 {
        lemma_chroma_coded(src, recon, stride, mb_x, mb_y, pred, q_idx, (n - 1) as nat, k);
    } else if n > 1 {
        lemma_chroma_coded(src, recon, stride, mb_x, mb_y, pred, q_idx, (n - 1) as nat, 0);
    }
}

/// Chroma of a macroblock that is what the pixels above and to the left of the same plane suggest is
/// coded as nothing, in either plane whatever the other holds.
pub proof fn lemma_suggested_chroma(
    src: Planes,
    recon: Planes,
    y_stride: int,
    uv_stride: int,
    mb_x: int,
    mb_y: int,
    q_idx: int,
    k: int,
    i: int,
)
    requires
        0 <= q_idx < 128,
        0 <= mb_x,
        0 <= mb_y,
        0 <= k < 4,
        0 <= i < 16,
    ensures
        ({
            let mb = macroblock_run(src, recon, y_stride, uv_stride, mb_x, mb_y, q_idx).1;
            let x = mb_x * 8 + k % 2 * 4;
            let y = mb_y * 8 + k / 2 * 4;
            let u = dc_prediction(recon.u, uv_stride, mb_x * 8, mb_y * 8);
            let v = dc_prediction(recon.v, uv_stride, mb_x * 8, mb_y * 8);
            &&& 0 <= u <= 255 && (forall|j: int|
                0 <= j < 16 ==> #[trigger] block_at(src.u, uv_stride, x, y)[j] == u) ==> mb.u[k][i]
                == 0
            &&& 0 <= v <= 255 && (forall|j: int|
                0 <= j < 16 ==> #[trigger] block_at(src.v, uv_stride, x, y)[j] == v) ==> mb.v[k][i]
                == 0
        }),
{
    let x = mb_x * 8 + k % 2 * 4;
    let y = mb_y * 8 + k / 2 * 4;
    let u = dc_prediction(recon.u, uv_stride, mb_x * 8, mb_y * 8);
    let v = dc_prediction(recon.v, uv_stride, mb_x * 8, mb_y * 8);
    lemma_chroma_coded(src.u, recon.u, uv_stride, mb_x, mb_y, u, q_idx, 4, k);
    lemma_chroma_coded(src.v, recon.v, uv_stride, mb_x, mb_y, v, q_idx, 4, k);
    if 0 <= u <= 255 && forall|j: int|
        0 <= j < 16 ==> #[trigger] block_at(src.u, uv_stride, x, y)[j] == u {
        lemma_predicted_block(src.u, uv_stride, x, y, u, q_idx, i);
    }
    if 0 <= v <= 255 && forall|j: int|
        0 <= j < 16 ==> #[trigger] block_at(src.v, uv_stride, x, y)[j] == v {
        lemma_predicted_block(src.v, uv_stride, x, y, v, q_idx, i);
    }
}

proof fn lemma_luma_coded(
    src: Seq<u8>,
    recon: Seq<u8>,
    stride: int,
    mb_x: int,
    mb_y: int,
    q_idx: int,
    n: nat,
    k: int,
)
    requires
        0 <= k < n,
    ensures
        ({
            let blocks = luma_run(src, recon, stride, mb_x, mb_y, q_idx, n).1;
            let before = luma_run(src, recon, stride, mb_x, mb_y, q_idx, k as nat).0;
            let x = mb_x * 16 + k % 4 * 4;
            let y = mb_y * 16 + k / 4 * 4;
            &&& blocks.len() == n
            &&& blocks[k] == coded_block(
                src,
                stride,
                x,
                y,
                bdc_prediction(before, stride, x, y),
                q_idx,
            )
        }),
    decreases n,
{
    reveal_with_fuel(luma_run, 2);
    if k < n - 1 {
        lemma_luma_coded(src, recon, stride, mb_x, mb_y, q_idx, (n - 1) as nat, k);
    } else if n > 1 {
        lemma_luma_coded(src, recon, stride, mb_x, mb_y, q_idx, (n - 1) as nat, 0);
    }
}

/// A luma block that is what the pixels above and to its left suggest, as they are coded before it,
/// is coded as nothing.
pub proof fn lemma_suggested_luma(
    src: Planes,
    recon: Planes,
    y_stride: int,
    uv_stride: int,
    mb_x: int,
    mb_y: int,
    q_idx: int,
    k: int,
    i: int,
)
    requires
        0 <= q_idx < 128,
        0 <= mb_x,
        0 <= mb_y,
        0 <= k < 16,
        0 <= i < 16,
    ensures
        ({
            let mb = macroblock_run(src, recon, y_stride, uv_stride, mb_x, mb_y, q_idx).1;
            let before = luma_run(src.y, recon.y, y_stride, mb_x, mb_y, q_idx, k as nat).0;
            let x = mb_x * 16 + k % 4 * 4;
            let y = mb_y * 16 + k / 4 * 4;
            let p = bdc_prediction(before, y_stride, x, y);
            0 <= p <= 255 && (forall|j: int|
                0 <= j < 16 ==> #[trigger] block_at(src.y, y_stride, x, y)[j] == p) ==> mb.y[k][i]
                == 0
        }),
{
    let before = luma_run(src.y, recon.y, y_stride, mb_x, mb_y, q_idx, k as nat).0;
    let x = mb_x * 16 + k % 4 * 4;
    let y = mb_y * 16 + k / 4 * 4;
    let p = bdc_prediction(before, y_stride, x, y);
    lemma_luma_coded(src.y, recon.y, y_stride, mb_x, mb_y, q_idx, 16, k);
    if 0 <= p <= 255 && forall|j: int|
        0 <= j < 16 ==> #[trigger] block_at(src.y, y_stride, x, y)[j] == p {
        lemma_predicted_block(src.y, y_stride, x, y, p, q_idx, i);
    }
}

} // verus!
