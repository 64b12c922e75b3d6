//! Macroblocks: prediction, transform and reconstruction of sixteen by sixteen pixels.
use crate::vp8::planes::{
    bdc_prediction, block_at, block_fits, dc_prediction, predict_bdc_4x4, predict_dc_8x8, put_block,
    read_block_4x4, write_block_4x4,
};
use crate::vp8::transform::{
    any_nonzero, fdct4x4, fdct_spec, quantize_block, quantize_spec, reconstruct_from_coeffs,
    reconstruct_spec, residual_from_prediction, residual_spec,
};
use vstd::prelude::*;

verus! {

/// Quantized coefficients of a block.
pub type Coeffs = Seq<i16>;

/// Coefficients of all blocks of a macroblock.
pub struct MacroBlockModel {
    pub y: Seq<Coeffs>,
    pub u: Seq<Coeffs>,
    pub v: Seq<Coeffs>,
}

/// Luma and chroma planes.
pub struct Planes {
    pub y: Seq<u8>,
    pub u: Seq<u8>,
    pub v: Seq<u8>,
}

/// The coefficients that a block of the source gets over a flat prediction.
#[verifier::opaque]
pub open spec fn coded_block(
    src: Seq<u8>,
    stride: int,
    x: int,
    y: int,
    pred: int,
    q_idx: int,
) -> Coeffs {
    quantize_spec(fdct_spec(residual_spec(block_at(src, stride, x, y), pred)), q_idx)
}

/// The plane after the block was replaced by what a reader makes of its coefficients.
#[verifier::opaque]
pub open spec fn reconstructed(
    recon: Seq<u8>,
    stride: int,
    x: int,
    y: int,
    pred: int,
    coeffs: Coeffs,
    q_idx: int,
) -> Seq<u8> {
    put_block(recon, stride, x, y, reconstruct_spec(coeffs, q_idx, pred), 16)
}

/// The first `n` luma blocks of a macroblock, each predicted from what was reconstructed
/// before it.
pub open spec fn luma_run(
    src: Seq<u8>,
    recon: Seq<u8>,
    stride: int,
    mb_x: int,
    mb_y: int,
    q_idx: int,
    n: nat,
) -> (Seq<u8>, Seq<Coeffs>)
    decreases n,
{
    if n == 0 {
        (recon, Seq::empty())
    } else {
        let (r, blocks) = luma_run(src, recon, stride, mb_x, mb_y, q_idx, (n - 1) as nat);
        let x = mb_x * 16 + ((n - 1) % 4) * 4;
        let y = mb_y * 16 + ((n - 1) / 4) * 4;
        let pred = bdc_prediction(r, stride, x, y);
        let coeffs = coded_block(src, stride, x, y, pred, q_idx);
        (reconstructed(r, stride, x, y, pred, coeffs, q_idx), blocks.push(coeffs))
    }
}

/// The first `n` blocks of a chroma plane of a macroblock, with one prediction for all.
pub open spec fn chroma_run(
    src: Seq<u8>,
    recon: Seq<u8>,
    stride: int,
    mb_x: int,
    mb_y: int,
    pred: int,
    q_idx: int,
    n: nat,
) -> (Seq<u8>, Seq<Coeffs>)
    decreases n,
{
    if n == 0 {
        (recon, Seq::empty())
    } else {
        let (r, blocks) = chroma_run(src, recon, stride, mb_x, mb_y, pred, q_idx, (n - 1) as nat);
        let x = mb_x * 8 + ((n - 1) % 2) * 4;
        let y = mb_y * 8 + ((n - 1) / 2) * 4;
        let coeffs = coded_block(src, stride, x, y, pred, q_idx);
        (reconstructed(r, stride, x, y, pred, coeffs, q_idx), blocks.push(coeffs))
    }
}

/// One macroblock: the planes after it and its coefficients.
pub open spec fn macroblock_run(
    src: Planes,
    recon: Planes,
    y_stride: int,
    uv_stride: int,
    mb_x: int,
    mb_y: int,
    q_idx: int,
) -> (Planes, MacroBlockModel) {
    let (y, yb) = luma_run(src.y, recon.y, y_stride, mb_x, mb_y, q_idx, 16);
    let (u, ub) = chroma_run(
        src.u,
        recon.u,
        uv_stride,
        mb_x,
        mb_y,
        dc_prediction(recon.u, uv_stride, mb_x * 8, mb_y * 8),
        q_idx,
        4,
    );
    let (v, vb) = chroma_run(
        src.v,
        recon.v,
        uv_stride,
        mb_x,
        mb_y,
        dc_prediction(recon.v, uv_stride, mb_x * 8, mb_y * 8),
        q_idx,
        4,
    );
    (Planes { y, u, v }, MacroBlockModel { y: yb, u: ub, v: vb })
}

/// Coefficients of a macroblock, and which of its blocks have any.
pub struct MacroBlockData {
    pub y_blocks: Vec<[i16; 16]>,
    pub u_blocks: Vec<[i16; 16]>,
    pub v_blocks: Vec<[i16; 16]>,
    pub y_nonzero: Vec<bool>,
    pub u_nonzero: Vec<bool>,
    pub v_nonzero: Vec<bool>,
}

pub open spec fn blocks_of(blocks: Seq<[i16; 16]>) -> Seq<Coeffs> {
    Seq::new(blocks.len(), |k: int| blocks[k]@)
}

/// The flags tell which blocks have coefficients, and all coefficients are in range.
pub open spec fn flags_match(blocks: Seq<[i16; 16]>, flags: Seq<bool>) -> bool {
    &&& flags.len() == blocks.len()
    &&& forall|k: int|
        0 <= k < blocks.len() ==> #[trigger] flags[k] == any_nonzero(blocks[k]@)
    &&& forall|k: int, i: int|
        #![trigger blocks[k]@[i]]
        0 <= k < blocks.len() && 0 <= i < 16 ==> -2047 <= blocks[k]@[i] <= 2047
}

impl MacroBlockData {
    pub open spec fn wf(&self) -> bool {
        &&& self.y_blocks@.len() == 16
        &&& self.u_blocks@.len() == 4
        &&& self.v_blocks@.len() == 4
        &&& flags_match(self.y_blocks@, self.y_nonzero@)
        &&& flags_match(self.u_blocks@, self.u_nonzero@)
        &&& flags_match(self.v_blocks@, self.v_nonzero@)
    }
}

impl View for MacroBlockData {
    type V = MacroBlockModel;

    open spec fn view(&self) -> MacroBlockModel {
        MacroBlockModel {
            y: blocks_of(self.y_blocks@),
            u: blocks_of(self.u_blocks@),
            v: blocks_of(self.v_blocks@),
        }
    }
}

/// Codes one block and reconstructs it in place.
fn code_block(
    src: &Vec<u8>,
    recon: &mut Vec<u8>,
    stride: usize,
    x: usize,
    y: usize,
    pred: u8,
    q_idx: usize,
) -> (r: ([i16; 16], bool))
    requires
        q_idx < 128,
        src@.len() == old(recon)@.len(),
        block_fits(src@.len() as int, stride as int, x as int, y as int, 4),
    ensures
        r.0@ == coded_block(src@, stride as int, x as int, y as int, pred as int, q_idx as int),
        r.1 == any_nonzero(r.0@),
        forall|i: int| 0 <= i < 16 ==> -2047 <= #[trigger] r.0@[i] <= 2047,
        final(recon)@ == reconstructed(
            old(recon)@,
            stride as int,
            x as int,
            y as int,
            pred as int,
            r.0@,
            q_idx as int,
        ),
        final(recon)@.len() == old(recon)@.len(),
{
    reveal(coded_block);
    reveal(reconstructed);
    let pixels: [u8; 16] = read_block_4x4(src, stride, x, y);
    let residual: [i16; 16] = residual_from_prediction(&pixels, pred);
    let dct: [i16; 16] = fdct4x4(&residual);
    let (coeffs, nonzero) = quantize_block(&dct, q_idx);
    let block: [u8; 16] = reconstruct_from_coeffs(&coeffs, q_idx, pred);
    write_block_4x4(recon, stride, x, y, &block);
    (coeffs, nonzero)
}

/// A macroblock of `size` pixels lies within a plane, and so do its four by four blocks.
proof fn lemma_sub_block(
    len: int,
    stride: int,
    mb_x: int,
    mb_y: int,
    size: int,
    dx: int,
    dy: int,
)
    requires
        block_fits(len, stride, mb_x * size, mb_y * size, size),
        0 <= dx <= size - 4,
        0 <= dy <= size - 4,
    ensures
        block_fits(len, stride, mb_x * size + dx, mb_y * size + dy, 4),
{
    let a = mb_y * size + dy + 4;
    let b = mb_y * size + size;
    assert(a * stride <= b * stride) by (nonlinear_arith)
        requires
            a <= b,
            stride >= 0,
    ;
}

/// Codes the luma blocks of a macroblock.
fn code_luma(
    src: &Vec<u8>,
    recon: &mut Vec<u8>,
    stride: usize,
    mb_x: usize,
    mb_y: usize,
    q_idx: usize,
) -> (r: (Vec<[i16; 16]>, Vec<bool>))
    requires
        q_idx < 128,
        mb_x <= 0xffff,
        mb_y <= 0xffff,
        src@.len() == old(recon)@.len(),
        block_fits(src@.len() as int, stride as int, mb_x * 16, mb_y * 16, 16),
    ensures
        r.0@.len() == 16,
        flags_match(r.0@, r.1@),
        (final(recon)@, blocks_of(r.0@)) == luma_run(
            src@,
            old(recon)@,
            stride as int,
            mb_x as int,
            mb_y as int,
            q_idx as int,
            16,
        ),
        final(recon)@.len() == old(recon)@.len(),
{
    let mut blocks: Vec<[i16; 16]> = Vec::new();
    let mut flags: Vec<bool> = Vec::new();
    let ghost start = recon@;
    let mut n: usize = 0;
    assert(blocks_of(blocks@) =~= Seq::<Coeffs>::empty());
    while n < 16
        invariant
            n <= 16,
            q_idx < 128,
            mb_x <= 0xffff,
            mb_y <= 0xffff,
            src@.len() == start.len(),
            recon@.len() == start.len(),
            block_fits(src@.len() as int, stride as int, mb_x * 16, mb_y * 16, 16),
            blocks@.len() == n,
            flags_match(blocks@, flags@),
            (recon@, blocks_of(blocks@)) == luma_run(
                src@,
                start,
                stride as int,
                mb_x as int,
                mb_y as int,
                q_idx as int,
                n as nat,
            ),
        decreases 16 - n,
    {
        let x: usize = mb_x * 16 + (n % 4) * 4;
        let y: usize = mb_y * 16 + (n / 4) * 4;
        proof {
            lemma_sub_block(
                src@.len() as int,
                stride as int,
                mb_x as int,
                mb_y as int,
                16,
                (n % 4) * 4,
                (n / 4) * 4,
            );
        }
        let pred: u8 = predict_bdc_4x4(recon, stride, x, y);
        let (coeffs, nonzero) = code_block(src, recon, stride, x, y, pred, q_idx);
        let ghost before = blocks@;
        blocks.push(coeffs);
        flags.push(nonzero);
        assert(blocks_of(blocks@) =~= blocks_of(before).push(coeffs@));
        n = n + 1;
    }
    (blocks, flags)
}

/// Codes the blocks of a chroma plane of a macroblock.
fn code_chroma(
    src: &Vec<u8>,
    recon: &mut Vec<u8>,
    stride: usize,
    mb_x: usize,
    mb_y: usize,
    q_idx: usize,
) -> (r: (Vec<[i16; 16]>, Vec<bool>))
    requires
        q_idx < 128,
        mb_x <= 0xffff,
        mb_y <= 0xffff,
        src@.len() == old(recon)@.len(),
        block_fits(src@.len() as int, stride as int, mb_x * 8, mb_y * 8, 8),
    ensures
        r.0@.len() == 4,
        flags_match(r.0@, r.1@),
        (final(recon)@, blocks_of(r.0@)) == chroma_run(
            src@,
            old(recon)@,
            stride as int,
            mb_x as int,
            mb_y as int,
            dc_prediction(old(recon)@, stride as int, mb_x * 8, mb_y * 8),
            q_idx as int,
            4,
        ),
        final(recon)@.len() == old(recon)@.len(),
{
    let mut blocks: Vec<[i16; 16]> = Vec::new();
    let mut flags: Vec<bool> = Vec::new();
    let ghost start = recon@;
    let pred: u8 = predict_dc_8x8(recon, stride, mb_x * 8, mb_y * 8);
    let mut n: usize = 0;
    assert(blocks_of(blocks@) =~= Seq::<Coeffs>::empty());
    while n < 4
        invariant
            n <= 4,
            q_idx < 128,
            mb_x <= 0xffff,
            mb_y <= 0xffff,
            src@.len() == start.len(),
            recon@.len() == start.len(),
            block_fits(src@.len() as int, stride as int, mb_x * 8, mb_y * 8, 8),
            blocks@.len() == n,
            flags_match(blocks@, flags@),
            (recon@, blocks_of(blocks@)) == chroma_run(
                src@,
                start,
                stride as int,
                mb_x as int,
                mb_y as int,
                pred as int,
                q_idx as int,
                n as nat,
            ),
        decreases 4 - n,
    {
        let x: usize = mb_x * 8 + (n % 2) * 4;
        let y: usize = mb_y * 8 + (n / 2) * 4;
        proof {
            lemma_sub_block(
                src@.len() as int,
                stride as int,
                mb_x as int,
                mb_y as int,
                8,
                (n % 2) * 4,
                (n / 2) * 4,
            );
        }
        let (coeffs, nonzero) = code_block(src, recon, stride, x, y, pred, q_idx);
        let ghost before = blocks@;
        blocks.push(coeffs);
        flags.push(nonzero);
        assert(blocks_of(blocks@) =~= blocks_of(before).push(coeffs@));
        n = n + 1;
    }
    (blocks, flags)
}

/// Source or reconstruction of a whole image, padded to whole macroblocks.
pub struct PlaneBuffers {
    pub y: Vec<u8>,
    pub u: Vec<u8>,
    pub v: Vec<u8>,
}

impl View for PlaneBuffers {
    type V = Planes;

    open spec fn view(&self) -> Planes {
        Planes { y: self.y@, u: self.u@, v: self.v@ }
    }
}

/// The planes have the size of `mb_width` by `mb_height` macroblocks.
pub open spec fn planes_sized(p: Planes, mb_width: int, mb_height: int) -> bool {
    &&& p.y.len() == (mb_width * 16) * (mb_height * 16)
    &&& p.u.len() == (mb_width * 8) * (mb_height * 8)
    &&& p.v.len() == (mb_width * 8) * (mb_height * 8)
}

proof fn lemma_macroblock_fits(mb_x: int, mb_y: int, mb_width: int, mb_height: int, size: int)
    requires
        0 <= mb_x < mb_width,
        0 <= mb_y < mb_height,
        size == 8 || size == 16,
    ensures
        block_fits(
            (mb_width * size) * (mb_height * size),
            mb_width * size,
            mb_x * size,
            mb_y * size,
            size,
        ),
{
    let a = mb_y * size + size;
    let b = mb_height * size;
    let s = mb_width * size;
    assert(a * s <= s * b) by (nonlinear_arith)
        requires
            a <= b,
            s >= 0,
    ;
}

/// Codes one macroblock and reconstructs it in place.
pub fn encode_macroblock(
    src: &PlaneBuffers,
    recon: &mut PlaneBuffers,
    mb_width: usize,
    mb_height: usize,
    mb_x: usize,
    mb_y: usize,
    q_idx: usize,
) -> (data: MacroBlockData)
    requires
        q_idx < 128,
        mb_x < mb_width <= 0xffff,
        mb_y < mb_height <= 0xffff,
        planes_sized(src@, mb_width as int, mb_height as int),
        planes_sized(old(recon)@, mb_width as int, mb_height as int),
    ensures
        data.wf(),
        planes_sized(final(recon)@, mb_width as int, mb_height as int),
        (final(recon)@, data@) == macroblock_run(
            src@,
            old(recon)@,
            mb_width * 16,
            mb_width * 8,
            mb_x as int,
            mb_y as int,
            q_idx as int,
        ),
{
    proof {
        lemma_macroblock_fits(mb_x as int, mb_y as int, mb_width as int, mb_height as int, 16);
        lemma_macroblock_fits(mb_x as int, mb_y as int, mb_width as int, mb_height as int, 8);
    }
    let y_stride: usize = mb_width * 16;
    let uv_stride: usize = mb_width * 8;
    let (y_blocks, y_nonzero) = code_luma(&src.y, &mut recon.y, y_stride, mb_x, mb_y, q_idx);
    let (u_blocks, u_nonzero) = code_chroma(&src.u, &mut recon.u, uv_stride, mb_x, mb_y, q_idx);
    let (v_blocks, v_nonzero) = code_chroma(&src.v, &mut recon.v, uv_stride, mb_x, mb_y, q_idx);
    MacroBlockData { y_blocks, u_blocks, v_blocks, y_nonzero, u_nonzero, v_nonzero }
}

/// The first `n` macroblocks of an image in row order: the planes after them and their
/// coefficients.
pub open spec fn image_run(
    src: Planes,
    start: Planes,
    mb_width: int,
    q_idx: int,
    n: nat,
) -> (Planes, Seq<MacroBlockModel>)
    decreases n,
{
    if n == 0 {
        (start, Seq::empty())
    } else {
        let (recon, mbs) = image_run(src, start, mb_width, q_idx, (n - 1) as nat);
        let (recon2, mb) = macroblock_run(
            src,
            recon,
            mb_width * 16,
            mb_width * 8,
            (n - 1) % mb_width,
            (n - 1) / mb_width,
            q_idx,
        );
        (recon2, mbs.push(mb))
    }
}

pub open spec fn zero_planes(mb_width: int, mb_height: int) -> Planes {
    Planes {
        y: Seq::new(((mb_width * 16) * (mb_height * 16)) as nat, |i: int| 0u8),
        u: Seq::new(((mb_width * 8) * (mb_height * 8)) as nat, |i: int| 0u8),
        v: Seq::new(((mb_width * 8) * (mb_height * 8)) as nat, |i: int| 0u8),
    }
}

pub open spec fn models_of(mbs: Seq<MacroBlockData>) -> Seq<MacroBlockModel> {
    Seq::new(mbs.len(), |k: int| mbs[k]@)
}

pub open spec fn all_wf(mbs: Seq<MacroBlockData>) -> bool {
    forall|k: int| 0 <= k < mbs.len() ==> (#[trigger] mbs[k]).wf()
}

/// Codes all macroblocks of an image in row order.
pub fn encode_macroblocks(
    src: &PlaneBuffers,
    mb_width: usize,
    mb_height: usize,
    q_idx: usize,
) -> (mbs: Vec<MacroBlockData>)
    requires
        q_idx < 128,
        1 <= mb_width <= 1024,
        1 <= mb_height <= 1024,
        planes_sized(src@, mb_width as int, mb_height as int),
    ensures
        mbs@.len() == mb_width * mb_height,
        all_wf(mbs@),
        models_of(mbs@) == image_run(
            src@,
            zero_planes(mb_width as int, mb_height as int),
            mb_width as int,
            q_idx as int,
            (mb_width * mb_height) as nat,
        ).1,
{
    assert(mb_width * mb_height <= 0x10_0000) by (nonlinear_arith)
        requires
            mb_width <= 1024,
            mb_height <= 1024,
    ;
    let yn: usize = src.y.len();
    let un: usize = src.u.len();
    let vn: usize = src.v.len();
    let mut recon = PlaneBuffers { y: vec![0; yn], u: vec![0; un], v: vec![0; vn] };
    let ghost zero = zero_planes(mb_width as int, mb_height as int);
    assert(recon.y@ =~= zero.y);
    assert(recon.u@ =~= zero.u);
    assert(recon.v@ =~= zero.v);
    let mut mbs: Vec<MacroBlockData> = Vec::new();
    let total: usize = mb_width * mb_height;
    let mut mb_y: usize = 0;
    assert(models_of(mbs@) =~= Seq::<MacroBlockModel>::empty());
    while mb_y < mb_height
        invariant
            mb_y <= mb_height,
            q_idx < 128,
            1 <= mb_width <= 1024,
            1 <= mb_height <= 1024,
            planes_sized(src@, mb_width as int, mb_height as int),
            planes_sized(recon@, mb_width as int, mb_height as int),
            all_wf(mbs@),
            mbs@.len() == mb_y * mb_width,
            (recon@, models_of(mbs@)) == image_run(
                src@,
                zero,
                mb_width as int,
                q_idx as int,
                mbs@.len(),
            ),
        decreases mb_height - mb_y,
    {
        let mut mb_x: usize = 0;
        while mb_x < mb_width
            invariant
                mb_x <= mb_width,
                mb_y < mb_height,
                q_idx < 128,
                1 <= mb_width <= 1024,
                1 <= mb_height <= 1024,
                planes_sized(src@, mb_width as int, mb_height as int),
                planes_sized(recon@, mb_width as int, mb_height as int),
                all_wf(mbs@),
                mbs@.len() == mb_y * mb_width + mb_x,
                (recon@, models_of(mbs@)) == image_run(
                    src@,
                    zero,
                    mb_width as int,
                    q_idx as int,
                    mbs@.len(),
                ),
            decreases mb_width - mb_x,
        {
            let ghost before = mbs@;
            let ghost recon0 = recon@;
            proof {
                crate::vp8::planes::lemma_row_col(mb_y as int, mb_x as int, mb_width as int);
            }
            let mb = encode_macroblock(
                src,
                &mut recon,
                mb_width,
                mb_height,
                mb_x,
                mb_y,
                q_idx,
            );
            mbs.push(mb);
            assert(models_of(mbs@) =~= models_of(before).push(mb@));
            mb_x = mb_x + 1;
        }
        assert((mb_y + 1) * mb_width == mb_y * mb_width + mb_width) by (nonlinear_arith);
        mb_y = mb_y + 1;
    }
    assert(mb_y * mb_width == mb_width * mb_height) by (nonlinear_arith)
        requires
            mb_y == mb_height,
    ;
    mbs
}

} // verus!
