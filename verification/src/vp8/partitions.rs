//! Entropy-coded partitions of a frame: modes in the first, coefficients in the others.
use crate::parallel::parallel_map;
use crate::vp8::bool_coder::{is_stream_of, literal_bools, BoolEncoder};
use crate::vp8::macroblock::{
    all_wf, models_of, Coeffs, MacroBlockData, MacroBlockModel,
};
use crate::vp8::tokens::{block_bools, encode_block, lemma_read_block, read_block, Bools};
use crate::vp8::transform::any_nonzero;
use crate::vp8::update_probs::{update_prob, update_prob_at, NUM_TOKEN_PROBS};
use vstd::prelude::*;

verus! {

pub const KEYFRAME_YMODE_B_PRED_PROB: u8 = 145;

pub const KEYFRAME_BPRED_DC_PROB: u8 = 231;

pub const KEYFRAME_UVMODE_DC_PROB: u8 = 142;

/// Number of coefficient partitions for an image of `mb_height` rows of macroblocks: a power of
/// two, at most eight and at most the number of rows.
pub open spec fn token_partitions(mb_height: int) -> int {
    if mb_height >= 8 {
        8
    } else if mb_height >= 4 {
        4
    } else if mb_height >= 2 {
        2
    } else {
        1
    }
}

pub fn choose_token_partitions(mb_height: usize) -> (r: usize)
    ensures
        r == token_partitions(mb_height as int),
{
    if mb_height >= 8 {
        8
    } else if mb_height >= 4 {
        4
    } else if mb_height >= 2 {
        2
    } else {
        1
    }
}

/// How often two divides `n`; 0 for 0.
pub open spec fn twos(n: int) -> int
    decreases n,
{
    if n <= 0 || n % 2 == 1 {
        0
    } else {
        1 + twos(n / 2)
    }
}

fn count_twos(n: usize) -> (r: u32)
    ensures
        r == twos(n as int),
        r <= 64,
    decreases n,
{
    proof {
        lemma_twos(n as int);
    }
    if n == 0 || n % 2 == 1 {
        0
    } else {
        let r: u32 = count_twos(n / 2);
        proof {
            if r == 64 {
                assert(vstd::arithmetic::power2::pow2(65) <= n);
                vstd::arithmetic::power2::lemma_pow2_unfold(65);
                vstd::arithmetic::power2::lemma2_to64();
            }
        }
        1 + r
    }
}

proof fn lemma_twos(n: int)
    requires
        n >= 0,
    ensures
        twos(n) >= 0,
        n > 0 ==> vstd::arithmetic::power2::pow2(twos(n) as nat) <= n,
    decreases n,
{
    vstd::arithmetic::power2::lemma2_to64();
    if n > 0 && n % 2 == 0 {
        lemma_twos(n / 2);
        vstd::arithmetic::power2::lemma_pow2_unfold(twos(n) as nat);
    }
}

pub open spec fn zero_flags(n: nat) -> Bools {
    Seq::new(n, |k: int| (false, 128u8))
}

/// No token probability from `i` on is updated.
pub open spec fn no_updates(i: int) -> Bools
    decreases NUM_TOKEN_PROBS - i,
{
    if i >= NUM_TOKEN_PROBS {
        Seq::empty()
    } else {
        seq![(false, update_prob(i))] + no_updates(i + 1)
    }
}

/// Prediction modes of a macroblock: a mode per luma block, all of them flat, and flat chroma.
pub open spec fn mode_bools() -> Bools {
    Seq::new(
        18,
        |k: int|
            (
                false,
                if k == 0 {
                    KEYFRAME_YMODE_B_PRED_PROB
                } else if k < 17 {
                    KEYFRAME_BPRED_DC_PROB
                } else {
                    KEYFRAME_UVMODE_DC_PROB
                },
            ),
    )
}

pub open spec fn all_modes(count: nat) -> Bools
    decreases count,
{
    if count == 0 {
        Seq::empty()
    } else {
        mode_bools() + all_modes((count - 1) as nat)
    }
}

/// The first partition: color space and filter settings, all zero; the number of coefficient
/// partitions; the quantizer; and the modes of all macroblocks.
pub open spec fn first_bools(q_idx: int, count: nat, num_partitions: int) -> Bools {
    zero_flags(14) + (literal_bools(2, twos(num_partitions)) + (literal_bools(7, q_idx) + (
    zero_flags(6) + (no_updates(0) + (zero_flags(1) + all_modes(count))))))
}

/// Writes `n` bits that are zero and as likely as not.
fn write_zero_flags(enc: &mut BoolEncoder, n: usize)
    requires
        old(enc).wf(),
    ensures
        final(enc).wf(),
        final(enc)@ == old(enc)@ + zero_flags(n as nat),
{
    let ghost start = enc@;
    let mut k: usize = 0;
    assert(start + zero_flags(0) =~= start);
    while k < n
        invariant
            enc.wf(),
            k <= n,
            enc@ == start + zero_flags(k as nat),
        decreases n - k,
    {
        enc.write_flag(false);
        k = k + 1;
        assert(enc@ =~= start + zero_flags(k as nat));
    }
}

fn write_no_updates(enc: &mut BoolEncoder)
    requires
        old(enc).wf(),
    ensures
        final(enc).wf(),
        final(enc)@ == old(enc)@ + no_updates(0),
{
    let ghost start = enc@;
    let mut i: usize = 0;
    while i < NUM_TOKEN_PROBS
        invariant
            enc.wf(),
            i <= NUM_TOKEN_PROBS,
            enc@ + no_updates(i as int) == start + no_updates(0),
        decreases NUM_TOKEN_PROBS - i,
    {
        let ghost prev = enc@;
        let prob: u8 = update_prob_at(i);
        enc.write_bool(false, prob);
        assert(enc@ + no_updates(i + 1) =~= prev + no_updates(i as int));
        i = i + 1;
    }
    assert(enc@ + no_updates(i as int) =~= enc@);
}

fn write_modes(enc: &mut BoolEncoder, count: usize)
    requires
        old(enc).wf(),
    ensures
        final(enc).wf(),
        final(enc)@ == old(enc)@ + all_modes(count as nat),
{
    let ghost start = enc@;
    let mut left: usize = count;
    while left > 0
        invariant
            enc.wf(),
            left <= count,
            enc@ + all_modes(left as nat) == start + all_modes(count as nat),
        decreases left,
    {
        let ghost prev = enc@;
        enc.write_bool(false, KEYFRAME_YMODE_B_PRED_PROB);
        let mut k: usize = 0;
        while k < 16
            invariant
                enc.wf(),
                k <= 16,
                enc@ == prev + mode_bools().take(k + 1),
            decreases 16 - k,
        {
            enc.write_bool(false, KEYFRAME_BPRED_DC_PROB);
            k = k + 1;
            assert(enc@ =~= prev + mode_bools().take(k + 1));
        }
        enc.write_bool(false, KEYFRAME_UVMODE_DC_PROB);
        assert(enc@ =~= prev + mode_bools());
        left = left - 1;
        assert(enc@ + all_modes(left as nat) =~= prev + (mode_bools() + all_modes(left as nat)));
    }
    assert(enc@ + all_modes(0) =~= enc@);
}

/// Codes the first partition.
pub fn encode_first_partition(
    q_idx: usize,
    macroblock_count: usize,
    num_partitions: usize,
) -> (r: Vec<u8>)
    requires
        q_idx < 128,
    ensures
        is_stream_of(
            r@,
            first_bools(q_idx as int, macroblock_count as nat, num_partitions as int),
        ),
{
    let mut enc = BoolEncoder::new();
    write_zero_flags(&mut enc, 14);
    let log: u32 = count_twos(num_partitions);
    enc.write_literal(2, log);
    enc.write_literal(7, q_idx as u32);
    write_zero_flags(&mut enc, 6);
    write_no_updates(&mut enc);
    write_zero_flags(&mut enc, 1);
    write_modes(&mut enc, macroblock_count);
    proof {
        let a = zero_flags(14);
        let b = literal_bools(2, twos(num_partitions as int));
        let c = literal_bools(7, q_idx as int);
        let d = zero_flags(6);
        let e = no_updates(0);
        let f = zero_flags(1);
        let g = all_modes(macroblock_count as nat);
        assert(enc@ =~= a + (b + (c + (d + (e + (f + g))))));
    }
    enc.finish()
}

// ---- coefficients ----
/// Blocks of a plane of a macroblock: plane 0 is luma, 1 and 2 are chroma.
pub open spec fn plane_blocks(mb: MacroBlockModel, plane: int) -> Seq<Coeffs> {
    if plane == 0 {
        mb.y
    } else if plane == 1 {
        mb.u
    } else {
        mb.v
    }
}

/// Blocks in a row of a macroblock.
pub open spec fn plane_side(plane: int) -> int {
    if plane == 0 {
        4
    } else {
        2
    }
}

/// The set of probabilities for the blocks of a plane.
pub open spec fn plane_type(plane: int) -> int {
    if plane == 0 {
        3
    } else {
        2
    }
}

pub open spec fn flag(b: bool) -> int {
    if b {
        1
    } else {
        0
    }
}

/// 1 if the block left of block `k` of a macroblock has coefficients; 0 outside the image.
pub open spec fn left_flag(
    mbs: Seq<MacroBlockModel>,
    mb_width: int,
    plane: int,
    x: int,
    y: int,
    k: int,
) -> int {
    let side = plane_side(plane);
    if k % side > 0 {
        flag(any_nonzero(plane_blocks(mbs[y * mb_width + x], plane)[k - 1]))
    } else if x > 0 {
        flag(any_nonzero(plane_blocks(mbs[y * mb_width + x - 1], plane)[k + side - 1]))
    } else {
        0
    }
}

/// 1 if the block above block `k` of a macroblock has coefficients; 0 outside the image.
pub open spec fn top_flag(
    mbs: Seq<MacroBlockModel>,
    mb_width: int,
    plane: int,
    x: int,
    y: int,
    k: int,
) -> int {
    let side = plane_side(plane);
    if k >= side {
        flag(any_nonzero(plane_blocks(mbs[y * mb_width + x], plane)[k - side]))
    } else if y > 0 {
        flag(
            any_nonzero(
                plane_blocks(mbs[(y - 1) * mb_width + x], plane)[k + side * (side - 1)],
            ),
        )
    } else {
        0
    }
}

pub open spec fn context(
    mbs: Seq<MacroBlockModel>,
    mb_width: int,
    plane: int,
    x: int,
    y: int,
    k: int,
) -> int {
    top_flag(mbs, mb_width, plane, x, y, k) + left_flag(mbs, mb_width, plane, x, y, k)
}

/// The bits of block `k` of a macroblock.
pub open spec fn coded_bools(
    mbs: Seq<MacroBlockModel>,
    mb_width: int,
    plane: int,
    x: int,
    y: int,
    k: int,
) -> Bools {
    block_bools(
        plane_blocks(mbs[y * mb_width + x], plane)[k],
        plane_type(plane),
        0,
        context(mbs, mb_width, plane, x, y, k),
        false,
    )
}

/// The bits of the blocks of a macroblock from block `k` of a plane on.
pub open spec fn blocks_from(
    mbs: Seq<MacroBlockModel>,
    mb_width: int,
    plane: int,
    x: int,
    y: int,
    k: int,
) -> Bools
    decreases 3 - plane, 16 - k,
{
    if plane >= 3 {
        Seq::empty()
    } else if k >= plane_side(plane) * plane_side(plane) || k >= 16 {
        blocks_from(mbs, mb_width, plane + 1, x, y, 0)
    } else {
        coded_bools(mbs, mb_width, plane, x, y, k) + blocks_from(mbs, mb_width, plane, x, y, k + 1)
    }
}

/// The bits of a row of macroblocks from column `x` on.
pub open spec fn row_from(mbs: Seq<MacroBlockModel>, mb_width: int, x: int, y: int) -> Bools
    decreases mb_width - x,
{
    if x >= mb_width {
        Seq::empty()
    } else {
        blocks_from(mbs, mb_width, 0, x, y, 0) + row_from(mbs, mb_width, x + 1, y)
    }
}

/// The bits of every `step`-th row from row `y` on.
pub open spec fn partition_from(
    mbs: Seq<MacroBlockModel>,
    mb_width: int,
    mb_height: int,
    y: int,
    step: int,
) -> Bools
    decreases
            if y < mb_height {
                mb_height - y
            } else {
                0
            },
{
    if y >= mb_height || step < 1 {
        Seq::empty()
    } else {
        row_from(mbs, mb_width, 0, y) + partition_from(mbs, mb_width, mb_height, y + step, step)
    }
}

/// 1 if block `k` of a plane of the macroblock has coefficients.
fn block_flag(mb: &MacroBlockData, plane: usize, k: usize) -> (r: usize)
    requires
        mb.wf(),
        plane < 3,
        k < plane_side(plane as int) * plane_side(plane as int),
    ensures
        r == flag(any_nonzero(plane_blocks(mb@, plane as int)[k as int])),
{
    let b: bool = if plane == 0 {
        mb.y_nonzero[k]
    } else if plane == 1 {
        mb.u_nonzero[k]
    } else {
        mb.v_nonzero[k]
    };
    if b {
        1
    } else {
        0
    }
}

fn block_context(
    mbs: &Vec<MacroBlockData>,
    mb_width: usize,
    plane: usize,
    x: usize,
    y: usize,
    k: usize,
) -> (r: usize)
    requires
        all_wf(mbs@),
        plane < 3,
        k < plane_side(plane as int) * plane_side(plane as int),
        x < mb_width,
        y * mb_width + x < mbs@.len(),
    ensures
        r == context(
            models_of(mbs@),
            mb_width as int,
            plane as int,
            x as int,
            y as int,
            k as int,
        ),
        r <= 2,
{
    let side: usize = if plane == 0 {
        4
    } else {
        2
    };
    let ghost models = models_of(mbs@);
    let total: usize = mbs.len();
    assert(y * mb_width >= 0) by (nonlinear_arith);
    let row: usize = y * mb_width;
    let at: usize = row + x;
    let left: usize = if k % side > 0 {
        block_flag(&mbs[at], plane, k - 1)
    } else if x > 0 {
        block_flag(&mbs[at - 1], plane, k + side - 1)
    } else {
        0
    };
    let top: usize = if k >= side {
        block_flag(&mbs[at], plane, k - side)
    } else if y > 0 {
        proof {
            assert((y - 1) * mb_width == y * mb_width - mb_width) by (nonlinear_arith);
            assert(y * mb_width >= mb_width) by (nonlinear_arith)
                requires
                    y >= 1,
            ;
        }
        block_flag(&mbs[at - mb_width], plane, k + side * (side - 1))
    } else {
        0
    };
    top + left
}

/// Writes the blocks of a macroblock.
fn write_macroblock(
    enc: &mut BoolEncoder,
    mbs: &Vec<MacroBlockData>,
    mb_width: usize,
    x: usize,
    y: usize,
)
    requires
        old(enc).wf(),
        all_wf(mbs@),
        x < mb_width,
        y * mb_width + x < mbs@.len(),
    ensures
        final(enc).wf(),
        final(enc)@ == old(enc)@ + blocks_from(
            models_of(mbs@),
            mb_width as int,
            0,
            x as int,
            y as int,
            0,
        ),
{
    let ghost start = enc@;
    let ghost models = models_of(mbs@);
    let ghost goal = blocks_from(models, mb_width as int, 0, x as int, y as int, 0);
    let mut plane: usize = 0;
    while plane < 3
        invariant
            enc.wf(),
            all_wf(mbs@),
            models == models_of(mbs@),
            plane <= 3,
            x < mb_width,
            y * mb_width + x < mbs@.len(),
            enc@ + blocks_from(models, mb_width as int, plane as int, x as int, y as int, 0)
                == start + goal,
        decreases 3 - plane,
    {
        let count: usize = if plane == 0 {
            16
        } else {
            4
        };
        let mut k: usize = 0;
        while k < count
            invariant
                enc.wf(),
                all_wf(mbs@),
                models == models_of(mbs@),
                plane < 3,
                k <= count,
                count == plane_side(plane as int) * plane_side(plane as int),
                count == if plane == 0 {
                    16int
                } else {
                    4
                },
                x < mb_width,
                y * mb_width + x < mbs@.len(),
                enc@ + blocks_from(
                    models,
                    mb_width as int,
                    plane as int,
                    x as int,
                    y as int,
                    k as int,
                ) == start + goal,
            decreases count - k,
        {
            let ghost prev = enc@;
            let ctx: usize = block_context(mbs, mb_width, plane, x, y, k);
            assert(y * mb_width >= 0) by (nonlinear_arith);
            let total: usize = mbs.len();
            let at: usize = y * mb_width + x;
            let ghost mb = mbs@[at as int];
            assert(mb.wf());
            if plane == 0 {
                encode_block(enc, &mbs[at].y_blocks[k], 3, 0, ctx);
            } else if plane == 1 {
                encode_block(enc, &mbs[at].u_blocks[k], 2, 0, ctx);
            } else {
                encode_block(enc, &mbs[at].v_blocks[k], 2, 0, ctx);
            }
            proof {
                let one = coded_bools(
                    models,
                    mb_width as int,
                    plane as int,
                    x as int,
                    y as int,
                    k as int,
                );
                let rest = blocks_from(
                    models,
                    mb_width as int,
                    plane as int,
                    x as int,
                    y as int,
                    k + 1,
                );
                assert(models[at as int] == mb@);
                assert(enc@ == prev + one);
                assert(prev + (one + rest) =~= (prev + one) + rest);
            }
            k = k + 1;
        }
        plane = plane + 1;
    }
    assert(enc@ + Seq::<(bool, u8)>::empty() =~= enc@);
}

/// Codes one coefficient partition: every `num_partitions`-th row from row `part` on.
pub fn encode_partition(
    macroblocks: &Vec<MacroBlockData>,
    mb_width: usize,
    mb_height: usize,
    part: usize,
    num_partitions: usize,
) -> (r: Vec<u8>)
    requires
        all_wf(macroblocks@),
        macroblocks@.len() == mb_width * mb_height,
        num_partitions >= 1,
    ensures
        is_stream_of(
            r@,
            partition_from(
                models_of(macroblocks@),
                mb_width as int,
                mb_height as int,
                part as int,
                num_partitions as int,
            ),
        ),
{
    let mut enc = BoolEncoder::new();
    let ghost models = models_of(macroblocks@);
    let ghost w = mb_width as int;
    let ghost h = mb_height as int;
    let ghost n = num_partitions as int;
    let ghost goal = partition_from(models, w, h, part as int, n);
    let mut mb_y: usize = part;
    let mut done: bool = false;
    assert(enc@ + goal =~= goal);
    while !done && mb_y < mb_height
        invariant
            enc.wf(),
            all_wf(macroblocks@),
            models == models_of(macroblocks@),
            macroblocks@.len() == mb_width * mb_height,
            num_partitions >= 1,
            w == mb_width,
            h == mb_height,
            n == num_partitions,
            !done ==> enc@ + partition_from(models, w, h, mb_y as int, n) == goal,
            done ==> enc@ == goal,
        decreases
            mb_height - mb_y,
            if done {
                0int
            } else {
                1
            },
    {
        let ghost before = enc@;
        let mut mb_x: usize = 0;
        while mb_x < mb_width
            invariant
                enc.wf(),
                all_wf(macroblocks@),
                models == models_of(macroblocks@),
                macroblocks@.len() == mb_width * mb_height,
                w == mb_width,
                mb_x <= mb_width,
                mb_y < mb_height,
                enc@ + row_from(models, w, mb_x as int, mb_y as int) == before + row_from(
                    models,
                    w,
                    0,
                    mb_y as int,
                ),
            decreases mb_width - mb_x,
        {
            let ghost prev = enc@;
            assert(mb_y * mb_width + mb_x < mb_width * mb_height) by (nonlinear_arith)
                requires
                    mb_x < mb_width,
                    mb_y < mb_height,
            ;
            write_macroblock(&mut enc, macroblocks, mb_width, mb_x, mb_y);
            proof {
                let one = blocks_from(models, w, 0, mb_x as int, mb_y as int, 0);
                let rest = row_from(models, w, mb_x + 1, mb_y as int);
                assert(prev + (one + rest) =~= (prev + one) + rest);
            }
            mb_x = mb_x + 1;
        }
        proof {
            let row = row_from(models, w, 0, mb_y as int);
            assert(enc@ + Seq::<(bool, u8)>::empty() =~= enc@);
            assert(enc@ == before + row);
            let rest = partition_from(models, w, h, mb_y + n, n);
            assert(before + (row + rest) =~= (before + row) + rest);
            assert(enc@ + rest == goal);
            if mb_y + n >= h {
                assert(enc@ + rest =~= enc@);
            }
        }
        if num_partitions < mb_height - mb_y {
            mb_y = mb_y + num_partitions;
        } else {
            done = true;
        }
    }
    if !done {
        assert(enc@ + partition_from(models, w, h, mb_y as int, n) =~= enc@);
    }
    enc.finish()
}

/// At least one.
pub open spec fn partition_count(num_partitions: int) -> int {
    if num_partitions <= 1 {
        1
    } else {
        num_partitions
    }
}

/// Codes all coefficient partitions, each on its own.
pub fn encode_coeff_partitions(
    macroblocks: &Vec<MacroBlockData>,
    mb_width: usize,
    mb_height: usize,
    num_partitions: usize,
) -> (r: Vec<Vec<u8>>)
    requires
        all_wf(macroblocks@),
        macroblocks@.len() == mb_width * mb_height,
    ensures
        r@.len() == partition_count(num_partitions as int),
        forall|p: int|
            0 <= p < r@.len() ==> is_stream_of(
                #[trigger] r@[p]@,
                partition_from(
                    models_of(macroblocks@),
                    mb_width as int,
                    mb_height as int,
                    p,
                    partition_count(num_partitions as int),
                ),
            ),
{
    if num_partitions <= 1 {
        let only: Vec<u8> = encode_partition(macroblocks, mb_width, mb_height, 0, 1);
        let mut r: Vec<Vec<u8>> = Vec::new();
        r.push(only);
        return r;
    }
    let work = |part: usize| -> (out: Vec<u8>)
        ensures
            is_stream_of(
                out@,
                partition_from(
                    models_of(macroblocks@),
                    mb_width as int,
                    mb_height as int,
                    part as int,
                    num_partitions as int,
                ),
            ),
        { encode_partition(macroblocks, mb_width, mb_height, part, num_partitions) };
    let r: Vec<Vec<u8>> = parallel_map(num_partitions, false, work);
    assert forall|p: int| 0 <= p < r@.len() implies is_stream_of(
        #[trigger] r@[p]@,
        partition_from(
            models_of(macroblocks@),
            mb_width as int,
            mb_height as int,
            p,
            partition_count(num_partitions as int),
        ),
    ) by {
        let i = p as usize;
        assert(call_ensures(work, (i,), r@[i as int]));
    }
    r
}

// ---- reading ----
pub open spec fn with_block(mb: MacroBlockModel, plane: int, block: Coeffs) -> MacroBlockModel {
    if plane == 0 {
        MacroBlockModel { y: mb.y.push(block), ..mb }
    } else if plane == 1 {
        MacroBlockModel { u: mb.u.push(block), ..mb }
    } else {
        MacroBlockModel { v: mb.v.push(block), ..mb }
    }
}

pub open spec fn no_blocks() -> MacroBlockModel {
    MacroBlockModel { y: Seq::empty(), u: Seq::empty(), v: Seq::empty() }
}

/// Reads the blocks of the last macroblock from block `k` of a plane on. Contexts come from what
/// was read before.
pub open spec fn read_blocks(
    bs: Bools,
    mbs: Seq<MacroBlockModel>,
    mb_width: int,
    plane: int,
    x: int,
    y: int,
    k: int,
) -> Option<(Seq<MacroBlockModel>, Bools)>
    decreases 3 - plane, 16 - k,
{
    if plane >= 3 {
        Some((mbs, bs))
    } else if k >= plane_side(plane) * plane_side(plane) || k >= 16 {
        read_blocks(bs, mbs, mb_width, plane + 1, x, y, 0)
    } else {
        match read_block(
            bs,
            plane_type(plane),
            0,
            context(mbs, mb_width, plane, x, y, k),
            false,
            Seq::new(16, |j: int| 0i16),
        ) {
            None => None,
            Some((block, rest)) => read_blocks(
                rest,
                mbs.drop_last().push(with_block(mbs.last(), plane, block)),
                mb_width,
                plane,
                x,
                y,
                k + 1,
            ),
        }
    }
}

/// Reads a row of macroblocks from column `x` on.
pub open spec fn read_row(
    bs: Bools,
    mbs: Seq<MacroBlockModel>,
    mb_width: int,
    x: int,
    y: int,
) -> Option<(Seq<MacroBlockModel>, Bools)>
    decreases mb_width - x,
{
    if x >= mb_width {
        Some((mbs, bs))
    } else {
        match read_blocks(bs, mbs.push(no_blocks()), mb_width, 0, x, y, 0) {
            None => None,
            Some((mbs2, rest)) => read_row(rest, mbs2, mb_width, x + 1, y),
        }
    }
}

/// Reads all rows from row `y` on, each from the partition whose turn it is.
pub open spec fn read_rows(
    parts: Seq<Bools>,
    mbs: Seq<MacroBlockModel>,
    mb_width: int,
    mb_height: int,
    y: int,
) -> Option<Seq<MacroBlockModel>>
    decreases mb_height - y,
{
    if y >= mb_height {
        Some(mbs)
    } else {
        let p = y % (parts.len() as int);
        match read_row(parts[p], mbs, mb_width, 0, y) {
            None => None,
            Some((mbs2, rest)) => read_rows(
                parts.update(p, rest),
                mbs2,
                mb_width,
                mb_height,
                y + 1,
            ),
        }
    }
}

/// Blocks in number and range as the encoder makes them.
pub open spec fn blocks_ok(blocks: Seq<Coeffs>, n: int) -> bool {
    &&& blocks.len() == n
    &&& forall|k: int| 0 <= k < n ==> (#[trigger] blocks[k]).len() == 16
    &&& forall|k: int, j: int|
        #![trigger blocks[k][j]]
        0 <= k < n && 0 <= j < 16 ==> -2114 <= blocks[k][j] <= 2114
}

pub open spec fn model_ok(mb: MacroBlockModel) -> bool {
    blocks_ok(mb.y, 16) && blocks_ok(mb.u, 4) && blocks_ok(mb.v, 4)
}

/// `part` holds the macroblocks before one at `x`, `y` and the blocks of that one that come
/// before block `k` of a plane.
spec fn read_so_far(
    part: Seq<MacroBlockModel>,
    mbs: Seq<MacroBlockModel>,
    i: int,
    plane: int,
    k: int,
) -> bool {
    &&& 0 <= i < mbs.len()
    &&& part.len() == i + 1
    &&& forall|j: int| 0 <= j < i ==> #[trigger] part[j] == mbs[j]
    &&& part[i].y == (if plane == 0 {
        mbs[i].y.take(k)
    } else {
        mbs[i].y
    })
    &&& part[i].u == (if plane == 0 {
        Seq::empty()
    } else if plane == 1 {
        mbs[i].u.take(k)
    } else {
        mbs[i].u
    })
    &&& part[i].v == (if plane <= 1 {
        Seq::empty()
    } else if plane == 2 {
        mbs[i].v.take(k)
    } else {
        mbs[i].v
    })
}

proof fn lemma_context(
    part: Seq<MacroBlockModel>,
    mbs: Seq<MacroBlockModel>,
    mb_width: int,
    plane: int,
    x: int,
    y: int,
    k: int,
)
    requires
        0 <= x < mb_width,
        0 <= y,
        0 <= plane < 3,
        0 <= k < plane_side(plane) * plane_side(plane),
        read_so_far(part, mbs, y * mb_width + x, plane, k),
        model_ok(mbs[y * mb_width + x]),
    ensures
        context(part, mb_width, plane, x, y, k) == context(mbs, mb_width, plane, x, y, k),
{
    let side = plane_side(plane);
    let i = y * mb_width + x;
    assert(plane_blocks(part[i], plane) == plane_blocks(mbs[i], plane).take(k));
    assert(y * mb_width >= 0) by (nonlinear_arith)
        requires
            y >= 0,
            mb_width >= 0,
    ;
    if k % side > 0 {
        assert(k >= 1);
        assert(plane_blocks(mbs[i], plane).take(k)[k - 1] == plane_blocks(mbs[i], plane)[k - 1]);
    } else if x > 0 {
        assert(part[i - 1] == mbs[i - 1]);
    }
    if k >= side {
        assert(plane_blocks(mbs[i], plane).take(k)[k - side] == plane_blocks(
            mbs[i],
            plane,
        )[k - side]);
    } else if y > 0 {
        assert((y - 1) * mb_width == y * mb_width - mb_width) by (nonlinear_arith);
        assert(y * mb_width >= mb_width) by (nonlinear_arith)
            requires
                y >= 1,
                mb_width >= 0,
        ;
        assert(part[i - mb_width] == mbs[i - mb_width]);
    }
}

proof fn lemma_read_blocks(
    part: Seq<MacroBlockModel>,
    mbs: Seq<MacroBlockModel>,
    mb_width: int,
    plane: int,
    x: int,
    y: int,
    k: int,
    rest: Bools,
)
    requires
        0 <= x < mb_width,
        0 <= y,
        0 <= plane <= 3,
        0 <= k,
        plane < 3 ==> k <= plane_side(plane) * plane_side(plane),
        read_so_far(part, mbs, y * mb_width + x, plane, k),
        model_ok(mbs[y * mb_width + x]),
    ensures
        read_blocks(
            blocks_from(mbs, mb_width, plane, x, y, k) + rest,
            part,
            mb_width,
            plane,
            x,
            y,
            k,
        ) == Some((mbs.take(y * mb_width + x + 1), rest)),
    decreases 3 - plane, 16 - k,
{
    let i = y * mb_width + x;
    let bs = blocks_from(mbs, mb_width, plane, x, y, k) + rest;
    let side = plane_side(plane);
    assert(side * side == if side == 4 {
        16int
    } else {
        4
    }) by (nonlinear_arith)
        requires
            side == 4 || side == 2,
    ;
    if plane >= 3 {
        assert(bs =~= rest);
        assert(part[i] == mbs[i]);
        assert(part =~= mbs.take(i + 1));
    } else if k >= plane_side(plane) * plane_side(plane) || k >= 16 {
        assert(plane_blocks(mbs[i], plane).take(k) =~= plane_blocks(mbs[i], plane));
        if plane == 0 {
            assert(mbs[i].u.take(0) =~= Seq::<Coeffs>::empty());
        } else if plane == 1 {
            assert(mbs[i].v.take(0) =~= Seq::<Coeffs>::empty());
        }
        lemma_read_blocks(part, mbs, mb_width, plane + 1, x, y, 0, rest);
    } else {
        lemma_context(part, mbs, mb_width, plane, x, y, k);
        let block = plane_blocks(mbs[i], plane)[k];
        let tail = blocks_from(mbs, mb_width, plane, x, y, k + 1) + rest;
        let one = coded_bools(mbs, mb_width, plane, x, y, k);
        assert(bs =~= one + tail);
        assert(block.len() == 16);
        assert forall|j: int| 0 <= j < 16 implies -2114 <= #[trigger] block[j] <= 2114 by {
            let blocks = plane_blocks(mbs[i], plane);
            assert(blocks_ok(blocks, blocks.len() as int));
            assert(-2114 <= blocks[k][j] <= 2114);
        }
        lemma_read_block(block, plane_type(plane), context(mbs, mb_width, plane, x, y, k), tail);
        let part2 = part.drop_last().push(with_block(part.last(), plane, block));
        assert(plane_blocks(mbs[i], plane).take(k).push(block) =~= plane_blocks(
            mbs[i],
            plane,
        ).take(k + 1));
        assert(part2[i] == with_block(part[i], plane, block));
        assert(read_so_far(part2, mbs, i, plane, k + 1));
        lemma_read_blocks(part2, mbs, mb_width, plane, x, y, k + 1, rest);
    }
}

proof fn lemma_read_row(
    mbs: Seq<MacroBlockModel>,
    mb_width: int,
    x: int,
    y: int,
    rest: Bools,
)
    requires
        0 <= x <= mb_width,
        0 <= y,
        (y + 1) * mb_width <= mbs.len(),
        forall|j: int| 0 <= j < mbs.len() ==> model_ok(#[trigger] mbs[j]),
    ensures
        read_row(
            row_from(mbs, mb_width, x, y) + rest,
            mbs.take(y * mb_width + x),
            mb_width,
            x,
            y,
        ) == Some((mbs.take((y + 1) * mb_width), rest)),
    decreases mb_width - x,
{
    let bs = row_from(mbs, mb_width, x, y) + rest;
    assert((y + 1) * mb_width == y * mb_width + mb_width) by (nonlinear_arith);
    assert(y * mb_width >= 0) by (nonlinear_arith)
        requires
            y >= 0,
            mb_width >= 0,
    ;
    if x >= mb_width {
        assert(bs =~= rest);
    } else {
        let i = y * mb_width + x;
        let tail = row_from(mbs, mb_width, x + 1, y) + rest;
        assert(bs =~= blocks_from(mbs, mb_width, 0, x, y, 0) + tail);
        let part = mbs.take(i).push(no_blocks());
        assert(mbs[i].y.take(0) =~= Seq::<Coeffs>::empty());
        assert(read_so_far(part, mbs, i, 0, 0));
        lemma_read_blocks(part, mbs, mb_width, 0, x, y, 0, tail);
        lemma_read_row(mbs, mb_width, x + 1, y, rest);
    }
}

/// The first row from `y` on that belongs to partition `p` of `n`.
spec fn next_row(p: int, y: int, n: int) -> int {
    y + (p - y) % n
}

proof fn lemma_next_row(p: int, y: int, n: int)
    requires
        0 <= p < n,
        0 <= y,
    ensures
        p == y % n ==> next_row(p, y, n) == y && next_row(p, y + 1, n) == y + n,
        p != y % n ==> next_row(p, y, n) == next_row(p, y + 1, n),
{
    let d = (p - y) % n;
    let q = (p - y) / n;
    vstd::arithmetic::div_mod::lemma_fundamental_div_mod(p - y, n);
    vstd::arithmetic::div_mod::lemma_fundamental_div_mod(y, n);
    vstd::arithmetic::div_mod::lemma_mod_bound(p - y, n);
    vstd::arithmetic::div_mod::lemma_mod_bound(y, n);
    if p == y % n {
        // p - y is a multiple of n
        let m = -(y / n);
        assert(p - y == m * n + 0) by (nonlinear_arith)
            requires
                y == n * (y / n) + p,
                m == -(y / n),
        ;
        vstd::arithmetic::div_mod::lemma_fundamental_div_mod_converse(p - y, n, m, 0);
        assert(p - (y + 1) == (m - 1) * n + (n - 1)) by (nonlinear_arith)
            requires
                p - y == m * n,
        ;
        vstd::arithmetic::div_mod::lemma_fundamental_div_mod_converse(
            p - (y + 1),
            n,
            m - 1,
            n - 1,
        );
    } else {
        if d == 0 {
            assert(y == (-q) * n + p) by (nonlinear_arith)
                requires
                    p - y == n * q + 0,
            ;
            vstd::arithmetic::div_mod::lemma_fundamental_div_mod_converse(y, n, -q, p);
        }
        assert(p - (y + 1) == q * n + (d - 1)) by (nonlinear_arith)
            requires
                p - y == n * q + d,
        ;
        vstd::arithmetic::div_mod::lemma_fundamental_div_mod_converse(p - (y + 1), n, q, d - 1);
    }
}

proof fn lemma_read_rows(
    parts: Seq<Bools>,
    mbs: Seq<MacroBlockModel>,
    mb_width: int,
    mb_height: int,
    y: int,
)
    requires
        parts.len() >= 1,
        0 <= y <= mb_height,
        1 <= mb_width,
        mbs.len() == mb_width * mb_height,
        forall|j: int| 0 <= j < mbs.len() ==> model_ok(#[trigger] mbs[j]),
        forall|p: int|
            0 <= p < parts.len() ==> #[trigger] parts[p] == partition_from(
                mbs,
                mb_width,
                mb_height,
                next_row(p, y, parts.len() as int),
                parts.len() as int,
            ),
    ensures
        read_rows(parts, mbs.take(y * mb_width), mb_width, mb_height, y) == Some(mbs),
    decreases mb_height - y,
{
    let n = parts.len() as int;
    if y >= mb_height {
        assert(y * mb_width == mb_width * mb_height) by (nonlinear_arith)
            requires
                y == mb_height,
        ;
        assert(mbs.take(mbs.len() as int) =~= mbs);
    } else {
        let p = y % n;
        vstd::arithmetic::div_mod::lemma_mod_bound(y, n);
        assert((y + 1) * mb_width <= mb_width * mb_height) by (nonlinear_arith)
            requires
                y + 1 <= mb_height,
                mb_width >= 1,
        ;
        lemma_next_row(p, y, n);
        let rest = partition_from(mbs, mb_width, mb_height, y + n, n);
        assert(parts[p] == row_from(mbs, mb_width, 0, y) + rest);
        lemma_read_row(mbs, mb_width, 0, y, rest);
        let parts2 = parts.update(p, rest);
        assert forall|p2: int| 0 <= p2 < parts2.len() implies #[trigger] parts2[p2]
            == partition_from(mbs, mb_width, mb_height, next_row(p2, y + 1, n), n) by {
            lemma_next_row(p2, y, n);
            if p2 != p {
                assert(parts[p2] == parts2[p2]);
            }
        }
        lemma_read_rows(parts2, mbs, mb_width, mb_height, y + 1);
    }
}

/// However many partitions the rows are dealt to, reading the partitions in turn gives all
/// coefficients back.
pub proof fn lemma_read_partitions(
    mbs: Seq<MacroBlockModel>,
    mb_width: int,
    mb_height: int,
    n: nat,
)
    requires
        n >= 1,
        1 <= mb_width,
        0 <= mb_height,
        mbs.len() == mb_width * mb_height,
        forall|j: int| 0 <= j < mbs.len() ==> model_ok(#[trigger] mbs[j]),
    ensures
        read_rows(
            Seq::new(n, |p: int| partition_from(mbs, mb_width, mb_height, p, n as int)),
            Seq::empty(),
            mb_width,
            mb_height,
            0,
        ) == Some(mbs),
{
    let parts = Seq::new(n, |p: int| partition_from(mbs, mb_width, mb_height, p, n as int));
    assert forall|p: int| 0 <= p < parts.len() implies next_row(p, 0, n as int) == p by {
        vstd::arithmetic::div_mod::lemma_small_mod(p as nat, n);
    }
    assert(mbs.take(0 * mb_width) =~= Seq::<MacroBlockModel>::empty());
    lemma_read_rows(parts, mbs, mb_width, mb_height, 0);
}

} // verus!
