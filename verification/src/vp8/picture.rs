//! The picture that a reader makes of coefficients, whatever partitions they came in.
use crate::vp8::bool_coder::{is_stream_of, lemma_bools_read_back, reader_after};
use crate::vp8::coeff_probs::node_prob;
use crate::vp8::encoder::{
    encodes, frame_bytes, frame_error, image_blocks, lemma_read_image_blocks, lossy_file, mb_count,
    q_index, source_planes, streams_of, WebPEncodeError,
};
use crate::vp8::macroblock::{
    chroma_run, image_run, luma_run, macroblock_run, reconstructed, zero_planes, Coeffs,
    MacroBlockModel, Planes,
};
use crate::vp8::partitions::{
    context, no_blocks, partition_count, partition_from, plane_side, plane_type, read_blocks, read_row,
    read_rows, with_block,
};
use crate::vp8::planes::{bdc_prediction, dc_prediction};
use crate::vp8::tables::{band_of, extra_prob, zigzag};
use crate::vp8::tokens::{
    read_block, read_chain, read_extra, read_value, take_bool, token_extra_bits, Bools,
};
use vstd::prelude::*;

verus! {

/// The luma plane after the first `n` blocks of a macroblock were read, each over the prediction
/// from what was read before it.
pub open spec fn luma_read(
    recon: Seq<u8>,
    stride: int,
    mb_x: int,
    mb_y: int,
    blocks: Seq<Coeffs>,
    q_idx: int,
    n: nat,
) -> Seq<u8>
    decreases n,
{
    if n == 0 {
        recon
    } else {
        let r = luma_read(recon, stride, mb_x, mb_y, blocks, q_idx, (n - 1) as nat);
        let x = mb_x * 16 + ((n - 1) % 4) * 4;
        let y = mb_y * 16 + ((n - 1) / 4) * 4;
        reconstructed(r, stride, x, y, bdc_prediction(r, stride, x, y), blocks[n - 1], q_idx)
    }
}

/// A chroma plane after the first `n` blocks of a macroblock were read over one prediction.
pub open spec fn chroma_read(
    recon: Seq<u8>,
    stride: int,
    mb_x: int,
    mb_y: int,
    pred: int,
    blocks: Seq<Coeffs>,
    q_idx: int,
    n: nat,
) -> Seq<u8>
    decreases n,
{
    if n == 0 {
        recon
    } else {
        let r = chroma_read(recon, stride, mb_x, mb_y, pred, blocks, q_idx, (n - 1) as nat);
        let x = mb_x * 8 + ((n - 1) % 2) * 4;
        let y = mb_y * 8 + ((n - 1) / 2) * 4;
        reconstructed(r, stride, x, y, pred, blocks[n - 1], q_idx)
    }
}

/// The planes after a macroblock was read.
pub open spec fn macroblock_read(
    recon: Planes,
    y_stride: int,
    uv_stride: int,
    mb_x: int,
    mb_y: int,
    mb: MacroBlockModel,
    q_idx: int,
) -> Planes {
    Planes {
        y: luma_read(recon.y, y_stride, mb_x, mb_y, mb.y, q_idx, 16),
        u: chroma_read(
            recon.u,
            uv_stride,
            mb_x,
            mb_y,
            dc_prediction(recon.u, uv_stride, mb_x * 8, mb_y * 8),
            mb.u,
            q_idx,
            4,
        ),
        v: chroma_read(
            recon.v,
            uv_stride,
            mb_x,
            mb_y,
            dc_prediction(recon.v, uv_stride, mb_x * 8, mb_y * 8),
            mb.v,
            q_idx,
            4,
        ),
    }
}

/// The planes after the first `n` macroblocks were read, in row order.
pub open spec fn picture_read(
    start: Planes,
    mbs: Seq<MacroBlockModel>,
    mb_width: int,
    q_idx: int,
    n: nat,
) -> Planes
    decreases n,
{
    if n == 0 {
        start
    } else {
        macroblock_read(
            picture_read(start, mbs, mb_width, q_idx, (n - 1) as nat),
            mb_width * 16,
            mb_width * 8,
            (n - 1) % mb_width,
            (n - 1) / mb_width,
            mbs[n - 1],
            q_idx,
        )
    }
}

// ---- the writer has the same picture ----
proof fn lemma_luma_read(
    src: Seq<u8>,
    recon: Seq<u8>,
    stride: int,
    mb_x: int,
    mb_y: int,
    blocks: Seq<Coeffs>,
    q_idx: int,
    n: nat,
)
    requires
        blocks.len() >= n,
        forall|k: int|
            0 <= k < n ==> #[trigger] blocks[k] == luma_run(
                src,
                recon,
                stride,
                mb_x,
                mb_y,
                q_idx,
                n,
            ).1[k],
    ensures
        luma_run(src, recon, stride, mb_x, mb_y, q_idx, n).1.len() == n,
        luma_read(recon, stride, mb_x, mb_y, blocks, q_idx, n) == luma_run(
            src,
            recon,
            stride,
            mb_x,
            mb_y,
            q_idx,
            n,
        ).0,
    decreases n,
{
    if n > 0 {
        lemma_luma_len(src, recon, stride, mb_x, mb_y, q_idx, (n - 1) as nat);
        let before = luma_run(src, recon, stride, mb_x, mb_y, q_idx, (n - 1) as nat).1;
        let now = luma_run(src, recon, stride, mb_x, mb_y, q_idx, n).1;
        assert forall|k: int| 0 <= k < n - 1 implies #[trigger] blocks[k] == before[k] by {
            assert(now[k] == before[k]);
        }
        lemma_luma_read(src, recon, stride, mb_x, mb_y, blocks, q_idx, (n - 1) as nat);
        assert(blocks[n - 1] == now[n - 1]);
    }
}

proof fn lemma_luma_len(
    src: Seq<u8>,
    recon: Seq<u8>,
    stride: int,
    mb_x: int,
    mb_y: int,
    q_idx: int,
    n: nat,
)
    ensures
        luma_run(src, recon, stride, mb_x, mb_y, q_idx, n).1.len() == n,
    decreases n,
{
    if n > 0 {
        lemma_luma_len(src, recon, stride, mb_x, mb_y, q_idx, (n - 1) as nat);
    }
}

proof fn lemma_chroma_len(
    src: Seq<u8>,
    recon: Seq<u8>,
    stride: int,
    mb_x: int,
    mb_y: int,
    pred: int,
    q_idx: int,
    n: nat,
)
    ensures
        chroma_run(src, recon, stride, mb_x, mb_y, pred, q_idx, n).1.len() == n,
    decreases n,
{
    if n > 0 {
        lemma_chroma_len(src, recon, stride, mb_x, mb_y, pred, q_idx, (n - 1) as nat);
    }
}

proof fn lemma_chroma_read(
    src: Seq<u8>,
    recon: Seq<u8>,
    stride: int,
    mb_x: int,
    mb_y: int,
    pred: int,
    blocks: Seq<Coeffs>,
    q_idx: int,
    n: nat,
)
    requires
        blocks.len() >= n,
        forall|k: int|
            0 <= k < n ==> #[trigger] blocks[k] == chroma_run(
                src,
                recon,
                stride,
                mb_x,
                mb_y,
                pred,
                q_idx,
                n,
            ).1[k],
    ensures
        chroma_read(recon, stride, mb_x, mb_y, pred, blocks, q_idx, n) == chroma_run(
            src,
            recon,
            stride,
            mb_x,
            mb_y,
            pred,
            q_idx,
            n,
        ).0,
    decreases n,
{
    if n > 0 {
        lemma_chroma_len(src, recon, stride, mb_x, mb_y, pred, q_idx, (n - 1) as nat);
        let before = chroma_run(
            src,
            recon,
            stride,
            mb_x,
            mb_y,
            pred,
            q_idx,
            (n - 1) as nat,
        ).1;
        let now = chroma_run(src, recon, stride, mb_x, mb_y, pred, q_idx, n).1;
        assert forall|k: int| 0 <= k < n - 1 implies #[trigger] blocks[k] == before[k] by {
            assert(now[k] == before[k]);
        }
        lemma_chroma_read(
            src,
            recon,
            stride,
            mb_x,
            mb_y,
            pred,
            blocks,
            q_idx,
            (n - 1) as nat,
        );
        assert(blocks[n - 1] == now[n - 1]);
    }
}

proof fn lemma_macroblock_read(
    src: Planes,
    recon: Planes,
    y_stride: int,
    uv_stride: int,
    mb_x: int,
    mb_y: int,
    q_idx: int,
)
    ensures
        ({
            let (after, mb) = macroblock_run(src, recon, y_stride, uv_stride, mb_x, mb_y, q_idx);
            macroblock_read(recon, y_stride, uv_stride, mb_x, mb_y, mb, q_idx) == after
        }),
{
    let (after, mb) = macroblock_run(src, recon, y_stride, uv_stride, mb_x, mb_y, q_idx);
    let pu = dc_prediction(recon.u, uv_stride, mb_x * 8, mb_y * 8);
    let pv = dc_prediction(recon.v, uv_stride, mb_x * 8, mb_y * 8);
    lemma_luma_len(src.y, recon.y, y_stride, mb_x, mb_y, q_idx, 16);
    lemma_chroma_len(src.u, recon.u, uv_stride, mb_x, mb_y, pu, q_idx, 4);
    lemma_chroma_len(src.v, recon.v, uv_stride, mb_x, mb_y, pv, q_idx, 4);
    lemma_luma_read(src.y, recon.y, y_stride, mb_x, mb_y, mb.y, q_idx, 16);
    lemma_chroma_read(src.u, recon.u, uv_stride, mb_x, mb_y, pu, mb.u, q_idx, 4);
    lemma_chroma_read(src.v, recon.v, uv_stride, mb_x, mb_y, pv, mb.v, q_idx, 4);
}

proof fn lemma_run_len(src: Planes, start: Planes, mb_width: int, q_idx: int, n: nat)
    ensures
        image_run(src, start, mb_width, q_idx, n).1.len() == n,
    decreases n,
{
    if n > 0 {
        lemma_run_len(src, start, mb_width, q_idx, (n - 1) as nat);
    }
}

/// What a reader makes of the macroblocks of an image is what the writer predicted from: the two
/// do not drift apart.
pub proof fn lemma_picture_read(
    src: Planes,
    start: Planes,
    mbs: Seq<MacroBlockModel>,
    mb_width: int,
    q_idx: int,
    n: nat,
)
    requires
        mbs.len() >= n,
        forall|k: int|
            0 <= k < n ==> #[trigger] mbs[k] == image_run(src, start, mb_width, q_idx, n).1[k],
    ensures
        picture_read(start, mbs, mb_width, q_idx, n) == image_run(
            src,
            start,
            mb_width,
            q_idx,
            n,
        ).0,
    decreases n,
{
    if n > 0 {
        lemma_run_len(src, start, mb_width, q_idx, (n - 1) as nat);
        let (recon, before) = image_run(src, start, mb_width, q_idx, (n - 1) as nat);
        let now = image_run(src, start, mb_width, q_idx, n).1;
        assert forall|k: int| 0 <= k < n - 1 implies #[trigger] mbs[k] == before[k] by {
            assert(now[k] == before[k]);
        }
        lemma_picture_read(src, start, mbs, mb_width, q_idx, (n - 1) as nat);
        assert(mbs[n - 1] == now[n - 1]);
        lemma_macroblock_read(
            src,
            recon,
            mb_width * 16,
            mb_width * 8,
            (n - 1) % mb_width,
            (n - 1) / mb_width,
            q_idx,
        );
    }
}

// ---- files ----
/// The picture of coefficient streams, if they can be read.
pub open spec fn shown(streams: Seq<Bools>, width: int, height: int, q_idx: int) -> Option<Planes> {
    let mw = mb_count(width);
    let mh = mb_count(height);
    match read_rows(streams, Seq::empty(), mw, mh, 0) {
        Some(mbs) => Some(
            picture_read(zero_planes(mw, mh), mbs, mw, q_idx, (mw * mh) as nat),
        ),
        None => None,
    }
}

// ---- a stream is read in one way ----
/// What is left of two sequences of bits after the same bits were taken from both, where both have
/// the same stream.
pub open spec fn in_parallel(a: Bools, b: Bools) -> bool {
    exists|bytes: Seq<u8>, s: Bools, t: Bools, i: int| #[trigger]
        left_of(bytes, s, t, i, a, b)
}

pub open spec fn left_of(bytes: Seq<u8>, s: Bools, t: Bools, i: int, a: Bools, b: Bools) -> bool {
    &&& is_stream_of(bytes, s)
    &&& is_stream_of(bytes, t)
    &&& 0 <= i <= s.len()
    &&& i <= t.len()
    &&& s.take(i) == t.take(i)
    &&& a == s.skip(i)
    &&& b == t.skip(i)
}

proof fn lemma_same_reader(bytes: Seq<u8>, s: Bools, t: Bools, i: nat)
    requires
        i <= s.len(),
        i <= t.len(),
        s.take(i as int) == t.take(i as int),
    ensures
        reader_after(bytes, s, i) == reader_after(bytes, t, i),
    decreases i,
{
    if i > 0 {
        let j = i - 1;
        assert(s.take(j) =~= s.take(i as int).take(j));
        assert(t.take(j) =~= t.take(i as int).take(j));
        lemma_same_reader(bytes, s, t, j as nat);
        assert(s.take(i as int)[j] == s[j]);
        assert(t.take(i as int)[j] == t[j]);
    }
}

/// The next bit is the same.
proof fn lemma_take_alike(a: Bools, b: Bools, prob: u8)
    requires
        in_parallel(a, b),
        take_bool(a, prob) is Some,
        take_bool(b, prob) is Some,
    ensures
        take_bool(a, prob)->Some_0.0 == take_bool(b, prob)->Some_0.0,
        in_parallel(take_bool(a, prob)->Some_0.1, take_bool(b, prob)->Some_0.1),
{
    let (bytes, s, t, i) = choose|bytes: Seq<u8>, s: Bools, t: Bools, i: int| #[trigger]
        left_of(bytes, s, t, i, a, b);
    assert(a[0] == s[i] && b[0] == t[i]);
    lemma_same_reader(bytes, s, t, i as nat);
    lemma_bools_read_back(bytes, s, i as nat);
    lemma_bools_read_back(bytes, t, i as nat);
    assert(s[i] == t[i]);
    assert(s.take(i + 1) =~= s.take(i).push(s[i]));
    assert(t.take(i + 1) =~= t.take(i).push(t[i]));
    assert(a.skip(1) =~= s.skip(i + 1));
    assert(b.skip(1) =~= t.skip(i + 1));
    assert(left_of(bytes, s, t, i + 1, a.skip(1), b.skip(1)));
}

proof fn lemma_chain_alike(a: Bools, b: Bools, block_type: int, band: int, ctx: int, k: int)
    requires
        in_parallel(a, b),
        read_chain(a, block_type, band, ctx, k) is Some,
        read_chain(b, block_type, band, ctx, k) is Some,
    ensures
        ({
            let x = read_chain(a, block_type, band, ctx, k)->Some_0;
            let y = read_chain(b, block_type, band, ctx, k)->Some_0;
            x.0 == y.0 && in_parallel(x.1, y.1)
        }),
    decreases 11 - k,
{
    if k <= 10 {
        let prob = node_prob(block_type, band, ctx, k);
        lemma_take_alike(a, b, prob);
        let x = take_bool(a, prob)->Some_0;
        let y = take_bool(b, prob)->Some_0;
        if x.0 {
            lemma_chain_alike(x.1, y.1, block_type, band, ctx, k + 1);
        }
    }
}

proof fn lemma_extra_alike(a: Bools, b: Bools, token: int, n: nat, k: int, acc: int)
    requires
        in_parallel(a, b),
        read_extra(a, token, n, k, acc) is Some,
        read_extra(b, token, n, k, acc) is Some,
    ensures
        ({
            let x = read_extra(a, token, n, k, acc)->Some_0;
            let y = read_extra(b, token, n, k, acc)->Some_0;
            x.0 == y.0 && in_parallel(x.1, y.1)
        }),
    decreases n - k,
{
    if !(k >= n || k < 0) {
        let prob = extra_prob(token - 5, k);
        lemma_take_alike(a, b, prob);
        let x = take_bool(a, prob)->Some_0;
        let y = take_bool(b, prob)->Some_0;
        let more = 2 * acc + if x.0 {
            1int
        } else {
            0
        };
        lemma_extra_alike(x.1, y.1, token, n, k + 1, more);
    }
}

proof fn lemma_value_alike(a: Bools, b: Bools, token: int)
    requires
        in_parallel(a, b),
        read_value(a, token) is Some,
        read_value(b, token) is Some,
    ensures
        ({
            let x = read_value(a, token)->Some_0;
            let y = read_value(b, token)->Some_0;
            x.0 == y.0 && in_parallel(x.1, y.1)
        }),
{
    let n = token_extra_bits(token);
    lemma_extra_alike(a, b, token, n, 0, 0);
    let x = read_extra(a, token, n, 0, 0)->Some_0;
    let y = read_extra(b, token, n, 0, 0)->Some_0;
    lemma_take_alike(x.1, y.1, 128);
}

proof fn lemma_block_alike(
    a: Bools,
    b: Bools,
    block_type: int,
    i: int,
    complexity: int,
    skip: bool,
    acc: Seq<i16>,
)
    requires
        in_parallel(a, b),
        read_block(a, block_type, i, complexity, skip, acc) is Some,
        read_block(b, block_type, i, complexity, skip, acc) is Some,
    ensures
        ({
            let x = read_block(a, block_type, i, complexity, skip, acc)->Some_0;
            let y = read_block(b, block_type, i, complexity, skip, acc)->Some_0;
            x.0 == y.0 && in_parallel(x.1, y.1)
        }),
    decreases 16 - i,
{
    if i < 16 {
        let band = band_of(i);
        let prob = node_prob(block_type, band, complexity, 0);
        if !skip {
            lemma_take_alike(a, b, prob);
        }
        let x = if skip {
            (true, a)
        } else {
            take_bool(a, prob)->Some_0
        };
        let y = if skip {
            (true, b)
        } else {
            take_bool(b, prob)->Some_0
        };
        if x.0 {
            lemma_chain_alike(x.1, y.1, block_type, band, complexity, 1);
            let x2 = read_chain(x.1, block_type, band, complexity, 1)->Some_0;
            let y2 = read_chain(y.1, block_type, band, complexity, 1)->Some_0;
            if x2.0 == 0 {
                lemma_block_alike(x2.1, y2.1, block_type, i + 1, 0, true, acc);
            } else {
                lemma_value_alike(x2.1, y2.1, x2.0);
                let x3 = read_value(x2.1, x2.0)->Some_0;
                let y3 = read_value(y2.1, x2.0)->Some_0;
                let next: int = if x3.0 == 1 || x3.0 == -1 {
                    1
                } else {
                    2
                };
                lemma_block_alike(
                    x3.1,
                    y3.1,
                    block_type,
                    i + 1,
                    next,
                    false,
                    acc.update(zigzag(i), x3.0 as i16),
                );
            }
        }
    }
}

proof fn lemma_blocks_alike(
    a: Bools,
    b: Bools,
    mbs: Seq<MacroBlockModel>,
    mb_width: int,
    plane: int,
    x: int,
    y: int,
    k: int,
)
    requires
        in_parallel(a, b),
        read_blocks(a, mbs, mb_width, plane, x, y, k) is Some,
        read_blocks(b, mbs, mb_width, plane, x, y, k) is Some,
    ensures
        ({
            let p = read_blocks(a, mbs, mb_width, plane, x, y, k)->Some_0;
            let q = read_blocks(b, mbs, mb_width, plane, x, y, k)->Some_0;
            p.0 == q.0 && in_parallel(p.1, q.1)
        }),
    decreases 3 - plane, 16 - k,
{
    if plane >= 3 {
    } else if k >= plane_side(plane) * plane_side(plane) || k >= 16 {
        lemma_blocks_alike(a, b, mbs, mb_width, plane + 1, x, y, 0);
    } else {
        let zero = Seq::new(16, |j: int| 0i16);
        let ctx = context(mbs, mb_width, plane, x, y, k);
        lemma_block_alike(a, b, plane_type(plane), 0, ctx, false, zero);
        let p = read_block(a, plane_type(plane), 0, ctx, false, zero)->Some_0;
        let q = read_block(b, plane_type(plane), 0, ctx, false, zero)->Some_0;
        lemma_blocks_alike(
            p.1,
            q.1,
            mbs.drop_last().push(with_block(mbs.last(), plane, p.0)),
            mb_width,
            plane,
            x,
            y,
            k + 1,
        );
    }
}

proof fn lemma_row_alike(
    a: Bools,
    b: Bools,
    mbs: Seq<MacroBlockModel>,
    mb_width: int,
    x: int,
    y: int,
)
    requires
        in_parallel(a, b),
        read_row(a, mbs, mb_width, x, y) is Some,
        read_row(b, mbs, mb_width, x, y) is Some,
    ensures
        ({
            let p = read_row(a, mbs, mb_width, x, y)->Some_0;
            let q = read_row(b, mbs, mb_width, x, y)->Some_0;
            p.0 == q.0 && in_parallel(p.1, q.1)
        }),
    decreases mb_width - x,
{
    if x < mb_width {
        let more = mbs.push(no_blocks());
        lemma_blocks_alike(a, b, more, mb_width, 0, x, y, 0);
        let p = read_blocks(a, more, mb_width, 0, x, y, 0)->Some_0;
        let q = read_blocks(b, more, mb_width, 0, x, y, 0)->Some_0;
        lemma_row_alike(p.1, q.1, p.0, mb_width, x + 1, y);
    }
}

proof fn lemma_rows_alike(
    a: Seq<Bools>,
    b: Seq<Bools>,
    mbs: Seq<MacroBlockModel>,
    mb_width: int,
    mb_height: int,
    y: int,
)
    requires
        a.len() == b.len(),
        a.len() >= 1,
        0 <= y,
        forall|p: int| 0 <= p < a.len() ==> in_parallel(#[trigger] a[p], b[p]),
        read_rows(a, mbs, mb_width, mb_height, y) is Some,
        read_rows(b, mbs, mb_width, mb_height, y) is Some,
    ensures
        read_rows(a, mbs, mb_width, mb_height, y) == read_rows(b, mbs, mb_width, mb_height, y),
    decreases mb_height - y,
{
    if y < mb_height {
        let n = a.len() as int;
        let p = y % n;
        vstd::arithmetic::div_mod::lemma_mod_bound(y, n);
        assert(in_parallel(a[p], b[p]));
        lemma_row_alike(a[p], b[p], mbs, mb_width, 0, y);
        let u = read_row(a[p], mbs, mb_width, 0, y)->Some_0;
        let v = read_row(b[p], mbs, mb_width, 0, y)->Some_0;
        let a2 = a.update(p, u.1);
        let b2 = b.update(p, v.1);
        assert forall|j: int| 0 <= j < a2.len() implies in_parallel(#[trigger] a2[j], b2[j]) by {
            if j != p {
                assert(in_parallel(a[j], b[j]));
            }
        }
        lemma_rows_alike(a2, b2, u.0, mb_width, mb_height, y + 1);
    }
}

/// The bytes of partitions show a picture.
pub open spec fn parts_show(
    parts: Seq<Seq<u8>>,
    width: int,
    height: int,
    q_idx: int,
    picture: Planes,
) -> bool {
    exists|streams: Seq<Bools>|
        {
            &&& streams.len() == parts.len()
            &&& forall|p: int| 0 <= p < parts.len() ==> is_stream_of(#[trigger] parts[p], streams[p])
            &&& #[trigger] shown(streams, width, height, q_idx) == Some(picture)
        }
}

/// The bytes of partitions show no more than one picture.
pub proof fn lemma_one_picture(
    parts: Seq<Seq<u8>>,
    width: int,
    height: int,
    q_idx: int,
    a: Planes,
    b: Planes,
)
    requires
        parts.len() >= 1,
        parts_show(parts, width, height, q_idx, a),
        parts_show(parts, width, height, q_idx, b),
    ensures
        a == b,
{
    let s = choose|streams: Seq<Bools>|
        {
            &&& streams.len() == parts.len()
            &&& forall|p: int| 0 <= p < parts.len() ==> is_stream_of(#[trigger] parts[p], streams[p])
            &&& #[trigger] shown(streams, width, height, q_idx) == Some(a)
        };
    let t = choose|streams: Seq<Bools>|
        {
            &&& streams.len() == parts.len()
            &&& forall|p: int| 0 <= p < parts.len() ==> is_stream_of(#[trigger] parts[p], streams[p])
            &&& #[trigger] shown(streams, width, height, q_idx) == Some(b)
        };
    assert forall|p: int| 0 <= p < s.len() implies in_parallel(#[trigger] s[p], t[p]) by {
        assert(is_stream_of(parts[p], s[p]) && is_stream_of(parts[p], t[p]));
        assert(s[p].take(0) =~= t[p].take(0));
        assert(s[p].skip(0) =~= s[p]);
        assert(t[p].skip(0) =~= t[p]);
        assert(left_of(parts[p], s[p], t[p], 0, s[p], t[p]));
    }
    lemma_rows_alike(s, t, Seq::empty(), mb_count(width), mb_count(height), 0);
}

/// The partitions of a file show a picture.
pub open spec fn file_shows(
    file: Seq<u8>,
    width: int,
    height: int,
    q_idx: int,
    n: int,
    picture: Planes,
) -> bool {
    exists|first: Seq<u8>, parts: Seq<Seq<u8>>|
        #![trigger frame_bytes(width, height, first, parts)]
        {
            &&& file == lossy_file(frame_bytes(width, height, first, parts))
            &&& parts.len() == n
            &&& parts_show(parts, width, height, q_idx, picture)
        }
}

/// The picture that the writer of a file predicts from.
pub open spec fn written_picture(rgb: Seq<u8>, width: int, height: int, quality: int) -> Planes {
    let mw = mb_count(width);
    let mh = mb_count(height);
    image_run(
        source_planes(rgb, width, height),
        zero_planes(mw, mh),
        mw,
        q_index(quality),
        (mw * mh) as nat,
    ).0
}

/// The partitions of an image show the picture that their writer predicted from.
pub proof fn lemma_parts_show(
    rgb: Seq<u8>,
    width: int,
    height: int,
    quality: int,
    n: int,
    first: Seq<u8>,
    parts: Seq<Seq<u8>>,
)
    requires
        streams_of(rgb, width, height, quality, n, first, parts),
        1 <= width,
        1 <= height,
        0 <= quality,
    ensures
        parts_show(
            parts,
            width,
            height,
            q_index(quality),
            written_picture(rgb, width, height, quality),
        ),
{
    let mw = mb_count(width);
    let mh = mb_count(height);
    let count = partition_count(n);
    let mbs = image_blocks(rgb, width, height, quality);
    let streams = Seq::new(count as nat, |p: int| partition_from(mbs, mw, mh, p, count as int));
    lemma_read_image_blocks(rgb, width, height, quality, count as nat);
    lemma_run_len(
        source_planes(rgb, width, height),
        zero_planes(mw, mh),
        mw,
        q_index(quality),
        (mw * mh) as nat,
    );
    lemma_picture_read(
        source_planes(rgb, width, height),
        zero_planes(mw, mh),
        mbs,
        mw,
        q_index(quality),
        (mw * mh) as nat,
    );
    assert(shown(streams, width, height, q_index(quality)) == Some(
        written_picture(rgb, width, height, quality),
    ));
    assert forall|p: int| 0 <= p < parts.len() implies is_stream_of(
        #[trigger] parts[p],
        streams[p],
    ) by {}
}

/// The number of partitions does not change the picture: what the partitions of an image at a
/// quality show is the same, however many there are.
pub proof fn lemma_partitions_same_picture(
    rgb: Seq<u8>,
    width: int,
    height: int,
    quality: int,
    n: int,
    first: Seq<u8>,
    parts: Seq<Seq<u8>>,
    n2: int,
    first2: Seq<u8>,
    parts2: Seq<Seq<u8>>,
    a: Planes,
    b: Planes,
)
    requires
        streams_of(rgb, width, height, quality, n, first, parts),
        streams_of(rgb, width, height, quality, n2, first2, parts2),
        1 <= width,
        1 <= height,
        0 <= quality,
        parts_show(parts, width, height, q_index(quality), a),
        parts_show(parts2, width, height, q_index(quality), b),
    ensures
        a == b,
        a == written_picture(rgb, width, height, quality),
{
    let picture = written_picture(rgb, width, height, quality);
    lemma_parts_show(rgb, width, height, quality, n, first, parts);
    lemma_parts_show(rgb, width, height, quality, n2, first2, parts2);
    lemma_one_picture(parts, width, height, q_index(quality), a, picture);
    lemma_one_picture(parts2, width, height, q_index(quality), b, picture);
}

/// A file shows the picture that its writer predicted from, with whatever number of partitions it
/// was written.
pub proof fn lemma_file_shows(
    r: Result<Vec<u8>, WebPEncodeError>,
    rgb: Seq<u8>,
    width: int,
    height: int,
    quality: int,
    n: int,
)
    requires
        encodes(r, rgb, width, height, quality, n),
        r is Ok,
        1 <= width,
        1 <= height,
        0 <= quality,
    ensures
        file_shows(
            r->Ok_0@,
            width,
            height,
            q_index(quality),
            partition_count(n),
            written_picture(rgb, width, height, quality),
        ),
{
    let (first, parts) = choose|first: Seq<u8>, parts: Seq<Seq<u8>>|
        #![trigger frame_bytes(width, height, first, parts)]
        {
            &&& streams_of(rgb, width, height, quality, n, first, parts)
            &&& frame_error(first, parts) is None
            &&& r->Ok_0@ == lossy_file(frame_bytes(width, height, first, parts))
        };
    lemma_parts_show(rgb, width, height, quality, n, first, parts);
}

} // verus!
