//! Lossy encoding of an RGB image into a WebP file.
use crate::raster::RgbImage;
use crate::vp8::bool_coder::is_stream_of;
use crate::vp8::macroblock::{
    chroma_run, coded_block, encode_macroblocks, image_run, luma_run, zero_planes,
    MacroBlockData, MacroBlockModel, PlaneBuffers, Planes,
};
use crate::vp8::partitions::{
    blocks_ok, choose_token_partitions, encode_coeff_partitions, encode_first_partition,
    first_bools, lemma_read_partitions, model_ok, partition_count, partition_from, read_rows,
    token_partitions,
};
use crate::vp8::planes::{
    bdc_prediction, block_at, dc_prediction, half_up, luma_plane, pad_plane_clamped,
    padded_plane, rgb_to_yuv420, u_plane, v_plane,
};
use crate::vp8::transform::{fdct_spec, lemma_quantized_range, residual_spec};
use crate::webp::riff::{
    chunk_bytes, le_bytes, le_value, lemma_chunk_len, lemma_read_chunk,
    lemma_read_riff, push_le_bytes, push_slice, read_chunk, read_riff, riff_bytes, trunc32,
    write_chunk, write_riff_head, VP8,
};
use vstd::prelude::*;

verus! {

/// What went wrong in the lossy encoder.
#[derive(Debug, Clone)]
pub struct WebPEncodeError(pub String);

impl WebPEncodeError {
    /// The message.
    pub fn message(&self) -> (r: &String)
        ensures
            r@ == self.0@,
    {
        &self.0
    }
}

fn encode_error(message: &str) -> (r: WebPEncodeError)
    ensures
        r.0@ == message@,
{
    WebPEncodeError(message.to_owned())
}

/// Quantizer index for a quality of 0 to 100; higher qualities count as 100.
pub open spec fn q_index(quality: int) -> int {
    127 * (100 - (if quality < 100 {
        quality
    } else {
        100
    })) / 100
}

pub fn quality_to_q_index(quality: u8) -> (r: usize)
    ensures
        r == q_index(quality as int),
        r < 128,
{
    let q: usize = if quality < 100 {
        quality as usize
    } else {
        100
    };
    127 * (100 - q) / 100
}

/// Lengths of the partitions from `i` on but the last, three bytes each.
pub open spec fn size_table(parts: Seq<Seq<u8>>, i: int) -> Seq<u8>
    decreases parts.len() - i,
{
    if i + 1 >= parts.len() {
        Seq::empty()
    } else {
        le_bytes(parts[i].len() as int, 3) + size_table(parts, i + 1)
    }
}

/// The partitions from `i` on.
pub open spec fn joined(parts: Seq<Seq<u8>>, i: int) -> Seq<u8>
    decreases parts.len() - i,
{
    if i >= parts.len() {
        Seq::empty()
    } else {
        parts[i] + joined(parts, i + 1)
    }
}

pub open spec fn start_code() -> Seq<u8> {
    seq![0x9d, 0x01, 0x2a]
}

/// Frame tag: a shown key frame, and the length of the first partition.
pub open spec fn frame_tag(first_len: int) -> Seq<u8> {
    le_bytes(first_len * 32 + 16, 3)
}

/// A frame: tag, start code, dimensions, first partition, lengths and partitions.
pub open spec fn frame_bytes(
    width: int,
    height: int,
    first: Seq<u8>,
    parts: Seq<Seq<u8>>,
) -> Seq<u8> {
    frame_tag(first.len() as int) + (start_code() + (le_bytes(width, 2) + (le_bytes(height, 2) + (
    first + (size_table(parts, 0) + joined(parts, 0))))))
}

pub open spec fn views(parts: Seq<Vec<u8>>) -> Seq<Seq<u8>> {
    Seq::new(parts.len(), |k: int| parts[k]@)
}

/// The error for a frame that cannot be built.
pub open spec fn frame_error(first: Seq<u8>, parts: Seq<Seq<u8>>) -> Option<Seq<char>> {
    if first.len() > u32::MAX {
        Some("First partition exceeds VP8 limits"@)
    } else if first.len() >= 0x8_0000 {
        Some("First partition exceeds 19-bit VP8 frame tag capacity"@)
    } else if exists|i: int| 0 <= i < parts.len() - 1 && #[trigger] parts[i].len() > u32::MAX {
        Some("Token partition exceeds VP8 limits"@)
    } else {
        None
    }
}

/// Writes the length table. False if a length does not fit 32 bits.
fn write_size_table(out: &mut Vec<u8>, parts: &Vec<Vec<u8>>) -> (r: bool)
    ensures
        r == !(exists|i: int|
            0 <= i < views(parts@).len() - 1 && #[trigger] views(parts@)[i].len() > u32::MAX),
        r ==> final(out)@ == old(out)@ + size_table(views(parts@), 0),
{
    let ghost start = out@;
    let ghost vs = views(parts@);
    let mut i: usize = 0;
    let total: usize = parts.len();
    while total - i > 1
        invariant
            vs == views(parts@),
            total == parts@.len(),
            i <= total,
            forall|j: int| 0 <= j < i ==> #[trigger] vs[j].len() <= u32::MAX,
            out@ + size_table(vs, i as int) == start + size_table(vs, 0),
        decreases total - i,
    {
        let len: u64 = parts[i].len() as u64;
        assert(vs[i as int].len() == len);
        if len > u32::MAX as u64 {
            return false;
        }
        let ghost prev = out@;
        push_le_bytes(out, len as u32, 3);
        proof {
            let one = le_bytes(len as int, 3);
            let rest = size_table(vs, i + 1);
            assert(prev + (one + rest) =~= (prev + one) + rest);
        }
        i = i + 1;
    }
    assert(out@ + Seq::<u8>::empty() =~= out@);
    true
}

fn write_parts(out: &mut Vec<u8>, parts: &Vec<Vec<u8>>)
    ensures
        final(out)@ == old(out)@ + joined(views(parts@), 0),
{
    let ghost start = out@;
    let ghost vs = views(parts@);
    let mut i: usize = 0;
    while i < parts.len()
        invariant
            vs == views(parts@),
            i <= parts@.len(),
            out@ + joined(vs, i as int) == start + joined(vs, 0),
        decreases parts@.len() - i,
    {
        let ghost prev = out@;
        push_slice(out, parts[i].as_slice());
        proof {
            let one = vs[i as int];
            let rest = joined(vs, i + 1);
            assert(prev + (one + rest) =~= (prev + one) + rest);
        }
        i = i + 1;
    }
    assert(out@ + Seq::<u8>::empty() =~= out@);
}

/// Puts a frame together.
pub fn build_vp8_frame(
    width: u32,
    height: u32,
    first_partition: &Vec<u8>,
    coeff_partitions: &Vec<Vec<u8>>,
) -> (r: Result<Vec<u8>, WebPEncodeError>)
    ensures
        r is Ok == (frame_error(first_partition@, views(coeff_partitions@)) is None),
        r is Ok ==> r->Ok_0@ == frame_bytes(
            width as int,
            height as int,
            first_partition@,
            views(coeff_partitions@),
        ),
        r is Err ==> r->Err_0.0@ == frame_error(
            first_partition@,
            views(coeff_partitions@),
        )->Some_0,
{
    let first_len: u64 = first_partition.len() as u64;
    if first_len > u32::MAX as u64 {
        return Err(encode_error("First partition exceeds VP8 limits"));
    }
    if first_len >= 0x8_0000 {
        return Err(encode_error("First partition exceeds 19-bit VP8 frame tag capacity"));
    }
    let mut out: Vec<u8> = Vec::new();
    push_le_bytes(&mut out, first_len as u32 * 32 + 16, 3);
    out.push(0x9d);
    out.push(0x01);
    out.push(0x2a);
    push_le_bytes(&mut out, width, 2);
    push_le_bytes(&mut out, height, 2);
    push_slice(&mut out, first_partition.as_slice());
    let ghost head = out@;
    let ghost vs = views(coeff_partitions@);
    proof {
        let a = frame_tag(first_len as int);
        let b = start_code();
        let c = le_bytes(width as int, 2);
        let d = le_bytes(height as int, 2);
        let e = first_partition@;
        assert(head =~= a + (b + (c + (d + e))));
    }
    let fits: bool = write_size_table(&mut out, coeff_partitions);
    if !fits {
        return Err(encode_error("Token partition exceeds VP8 limits"));
    }
    write_parts(&mut out, coeff_partitions);
    proof {
        let a = frame_tag(first_len as int);
        let b = start_code();
        let c = le_bytes(width as int, 2);
        let d = le_bytes(height as int, 2);
        let e = first_partition@;
        let f = size_table(vs, 0);
        let g = joined(vs, 0);
        assert(((a + (b + (c + (d + e)))) + f) + g =~= a + (b + (c + (d + (e + (f + g))))));
    }
    Ok(out)
}

/// A file with one lossy frame.
pub open spec fn lossy_file(frame: Seq<u8>) -> Seq<u8> {
    riff_bytes(
        trunc32(12 + frame.len() as int + frame.len() as int % 2),
        chunk_bytes(VP8@, frame),
    )
}

/// Length of the outer chunk around a frame.
fn riff_size(len: usize) -> (r: u32)
    ensures
        r == trunc32(12 + len as int + len as int % 2),
{
    let low: u64 = len as u64 % 0x1_0000_0000;
    ((12 + low + low % 2) % 0x1_0000_0000) as u32
}

/// Wraps a frame into a file.
pub fn wrap_riff_webp(vp8_data: &Vec<u8>) -> (r: Vec<u8>)
    ensures
        r@ == lossy_file(vp8_data@),
{
    let size: u32 = riff_size(vp8_data.len());
    let mut out: Vec<u8> = Vec::new();
    let ghost empty = out@;
    write_riff_head(&mut out, size);
    let ghost head = out@;
    write_chunk(&mut out, &VP8, vp8_data.as_slice());
    proof {
        let inner = chunk_bytes(VP8@, vp8_data@);
        let whole = riff_bytes(size, inner);
        assert(head + inner == empty + whole);
        assert(empty + whole =~= whole);
    }
    out
}

/// Number of macroblocks that cover `n` pixels.
pub open spec fn mb_count(n: int) -> int {
    (n + 15) / 16
}

/// The planes of an image, padded to whole macroblocks.
pub open spec fn source_planes(rgb: Seq<u8>, width: int, height: int) -> Planes {
    let uw = half_up(width);
    let uh = half_up(height);
    let n = (uw * uh) as nat;
    let mw = mb_count(width);
    let mh = mb_count(height);
    Planes {
        y: padded_plane(
            luma_plane(rgb, (width * height) as nat),
            width,
            height,
            mw * 16,
            mh * 16,
        ),
        u: padded_plane(u_plane(rgb, width, n), uw, uh, mw * 8, mh * 8),
        v: padded_plane(v_plane(rgb, width, n), uw, uh, mw * 8, mh * 8),
    }
}

/// The coefficients of all macroblocks of an image.
pub open spec fn image_blocks(
    rgb: Seq<u8>,
    width: int,
    height: int,
    quality: int,
) -> Seq<MacroBlockModel> {
    let mw = mb_count(width);
    let mh = mb_count(height);
    image_run(
        source_planes(rgb, width, height),
        zero_planes(mw, mh),
        mw,
        q_index(quality),
        (mw * mh) as nat,
    ).1
}

/// The streams of a frame: modes first, then coefficients in `n` partitions.
pub open spec fn streams_of(
    rgb: Seq<u8>,
    width: int,
    height: int,
    quality: int,
    n: int,
    first: Seq<u8>,
    parts: Seq<Seq<u8>>,
) -> bool {
    let mw = mb_count(width);
    let mh = mb_count(height);
    &&& is_stream_of(first, first_bools(q_index(quality), (mw * mh) as nat, n))
    &&& parts.len() == partition_count(n)
    &&& forall|p: int|
        0 <= p < parts.len() ==> is_stream_of(
            #[trigger] parts[p],
            partition_from(
                image_blocks(rgb, width, height, quality),
                mw,
                mh,
                p,
                partition_count(n),
            ),
        )
}

/// What encoding returns: the file around the frame of the image's streams, or an error.
pub open spec fn encodes(
    r: Result<Vec<u8>, WebPEncodeError>,
    rgb: Seq<u8>,
    width: int,
    height: int,
    quality: int,
    n: int,
) -> bool {
    if width == 0 || height == 0 {
        r is Err && r->Err_0.0@ == "VP8 encoder does not support empty images"@
    } else if width > 16383 || height > 16383 {
        r is Err && r->Err_0.0@ == "VP8 encoder only supports dimensions up to 16383x16383"@
    } else {
        exists|first: Seq<u8>, parts: Seq<Seq<u8>>|
            #![trigger frame_bytes(width, height, first, parts)]
            {
                &&& streams_of(rgb, width, height, quality, n, first, parts)
                &&& match frame_error(first, parts) {
                    Some(message) => r is Err && r->Err_0.0@ == message,
                    None => r is Ok && r->Ok_0@ == lossy_file(
                        frame_bytes(width, height, first, parts),
                    ),
                }
            }
    }
}

fn padded_planes(img: &RgbImage, mb_width: usize, mb_height: usize) -> (r: PlaneBuffers)
    requires
        img.wf(),
        1 <= img.width <= 16383,
        1 <= img.height <= 16383,
        mb_width == mb_count(img.width as int),
        mb_height == mb_count(img.height as int),
    ensures
        r@ == source_planes(img.data@, img.width as int, img.height as int),
{
    let (y, u, v) = rgb_to_yuv420(img.width, img.height, img.data.as_slice());
    let uw: usize = (img.width as usize + 1) / 2;
    let uh: usize = (img.height as usize + 1) / 2;
    PlaneBuffers {
        y: pad_plane_clamped(
            &y,
            img.width as usize,
            img.height as usize,
            mb_width * 16,
            mb_height * 16,
        ),
        u: pad_plane_clamped(&u, uw, uh, mb_width * 8, mb_height * 8),
        v: pad_plane_clamped(&v, uw, uh, mb_width * 8, mb_height * 8),
    }
}

fn encode_lossy_webp_impl(
    img: &RgbImage,
    quality: u8,
    forced_partitions: Option<usize>,
) -> (r: Result<Vec<u8>, WebPEncodeError>)
    requires
        img.wf(),
    ensures
        encodes(
            r,
            img.data@,
            img.width as int,
            img.height as int,
            quality as int,
            match forced_partitions {
                Some(n) => n as int,
                None => token_partitions(mb_count(img.height as int)),
            },
        ),
{
    let width: u32 = img.width;
    let height: u32 = img.height;
    if width == 0 || height == 0 {
        return Err(encode_error("VP8 encoder does not support empty images"));
    }
    if width > 16383 || height > 16383 {
        return Err(encode_error("VP8 encoder only supports dimensions up to 16383x16383"));
    }
    let q_idx: usize = quality_to_q_index(quality);
    let mb_width: usize = (width as usize + 15) / 16;
    let mb_height: usize = (height as usize + 15) / 16;
    let src = padded_planes(img, mb_width, mb_height);
    let macroblocks: Vec<MacroBlockData> = encode_macroblocks(&src, mb_width, mb_height, q_idx);
    assert(mb_width * mb_height <= 0x10_0000) by (nonlinear_arith)
        requires
            mb_width <= 1024,
            mb_height <= 1024,
    ;
    let num_partitions: usize = match forced_partitions {
        Some(n) => n,
        None => choose_token_partitions(mb_height),
    };
    let first: Vec<u8> = encode_first_partition(q_idx, mb_width * mb_height, num_partitions);
    let parts: Vec<Vec<u8>> = encode_coeff_partitions(
        &macroblocks,
        mb_width,
        mb_height,
        num_partitions,
    );
    proof {
        let ghost vs = views(parts@);
        assert forall|p: int| 0 <= p < vs.len() implies is_stream_of(
            #[trigger] vs[p],
            partition_from(
                image_blocks(img.data@, width as int, height as int, quality as int),
                mb_width as int,
                mb_height as int,
                p,
                partition_count(num_partitions as int),
            ),
        ) by {
            assert(vs[p] == parts@[p]@);
        }
        assert(streams_of(
            img.data@,
            width as int,
            height as int,
            quality as int,
            num_partitions as int,
            first@,
            vs,
        ));
    }
    let ghost frame = frame_bytes(width as int, height as int, first@, views(parts@));
    match build_vp8_frame(width, height, &first, &parts) {
        Ok(frame) => Ok(wrap_riff_webp(&frame)),
        Err(e) => Err(e),
    }
}

/// Encodes an image as a lossy WebP file, with as many coefficient partitions as its height
/// suggests.
pub fn encode_lossy_webp(img: &RgbImage, quality: u8) -> (r: Result<Vec<u8>, WebPEncodeError>)
    requires
        img.wf(),
    ensures
        encodes(
            r,
            img.data@,
            img.width as int,
            img.height as int,
            quality as int,
            token_partitions(mb_count(img.height as int)),
        ),
{
    encode_lossy_webp_impl(img, quality, None)
}

/// Encodes with a given number of coefficient partitions.
pub fn encode_lossy_webp_with_partitions(
    img: &RgbImage,
    quality: u8,
    partitions: usize,
) -> (r: Result<Vec<u8>, WebPEncodeError>)
    requires
        img.wf(),
    ensures
        encodes(
            r,
            img.data@,
            img.width as int,
            img.height as int,
            quality as int,
            partitions as int,
        ),
{
    encode_lossy_webp_impl(img, quality, Some(partitions))
}

// ---- reading ----
/// Reads a length of three bytes for each of the first `n` parts, then the parts and, as the
/// last one, what is left.
pub open spec fn split_parts(sizes: Seq<u8>, data: Seq<u8>, n: nat) -> Option<Seq<Seq<u8>>>
    decreases n,
{
    if n == 0 {
        Some(seq![data])
    } else {
        let size = le_value(sizes.take(3));
        if size > data.len() {
            None
        } else {
            match split_parts(sizes.skip(3), data.skip(size), (n - 1) as nat) {
                None => None,
                Some(rest) => Some(seq![data.take(size)] + rest),
            }
        }
    }
}

/// What a frame holds.
pub struct FrameParts {
    pub width: int,
    pub height: int,
    pub first: Seq<u8>,
    pub parts: Seq<Seq<u8>>,
}

/// Reads a frame of `n` coefficient partitions.
pub open spec fn read_frame(s: Seq<u8>, n: nat) -> Option<FrameParts> {
    if s.len() < 10 || n == 0 || s.subrange(3, 6) != start_code() {
        None
    } else {
        let tag = le_value(s.take(3));
        let first_len = tag / 32;
        let table = 3 * (n - 1);
        let body = s.skip(10);
        if tag % 32 != 16 || body.len() < first_len + table {
            None
        } else {
            match split_parts(
                body.subrange(first_len, first_len + table),
                body.skip(first_len + table),
                (n - 1) as nat,
            ) {
                None => None,
                Some(parts) => Some(
                    FrameParts {
                        width: le_value(s.subrange(6, 8)),
                        height: le_value(s.subrange(8, 10)),
                        first: body.take(first_len),
                        parts,
                    },
                ),
            }
        }
    }
}

proof fn lemma_le_short(v: int)
    requires
        0 <= v,
    ensures
        le_bytes(v, 3).len() == 3,
        v < 0x100_0000 ==> le_value(le_bytes(v, 3)) == v,
        le_bytes(v, 2).len() == 2,
        v < 0x1_0000 ==> le_value(le_bytes(v, 2)) == v,
{
    reveal_with_fuel(le_bytes, 4);
    reveal_with_fuel(le_value, 4);
    let s = le_bytes(v, 3);
    assert(s.skip(1) =~= le_bytes(v / 256, 2));
    assert(s.skip(1).skip(1) =~= le_bytes(v / 256 / 256, 1));
    assert(s.skip(1).skip(1).skip(1) =~= Seq::<u8>::empty());
    let t = le_bytes(v, 2);
    assert(t.skip(1) =~= le_bytes(v / 256, 1));
    assert(t.skip(1).skip(1) =~= Seq::<u8>::empty());
}

proof fn lemma_split_parts(parts: Seq<Seq<u8>>, i: int)
    requires
        0 <= i < parts.len(),
        forall|k: int| 0 <= k < parts.len() - 1 ==> #[trigger] parts[k].len() < 0x100_0000,
    ensures
        size_table(parts, i).len() == 3 * (parts.len() - 1 - i),
        split_parts(size_table(parts, i), joined(parts, i), (parts.len() - 1 - i) as nat) == Some(
            parts.skip(i),
        ),
    decreases parts.len() - i,
{
    let sizes = size_table(parts, i);
    let data = joined(parts, i);
    if i + 1 == parts.len() {
        assert(joined(parts, i + 1) =~= Seq::<u8>::empty());
        assert(data =~= parts[i]);
        assert(parts.skip(i) =~= seq![parts[i]]);
    } else {
        lemma_split_parts(parts, i + 1);
        let len = parts[i].len() as int;
        lemma_le_short(len);
        assert(sizes.take(3) =~= le_bytes(len, 3));
        assert(sizes.skip(3) =~= size_table(parts, i + 1));
        assert(data.take(len) =~= parts[i]);
        assert(data.skip(len) =~= joined(parts, i + 1));
        assert(parts.skip(i) =~= seq![parts[i]] + parts.skip(i + 1));
    }
}

/// Reading a frame gives its dimensions and partitions back, if the lengths of all partitions
/// but the last fit the three bytes they have.
pub proof fn lemma_read_frame(width: int, height: int, first: Seq<u8>, parts: Seq<Seq<u8>>)
    requires
        0 <= width < 0x1_0000,
        0 <= height < 0x1_0000,
        frame_error(first, parts) is None,
        parts.len() >= 1,
        forall|k: int| 0 <= k < parts.len() - 1 ==> #[trigger] parts[k].len() < 0x100_0000,
    ensures
        read_frame(frame_bytes(width, height, first, parts), parts.len()) == Some(
            FrameParts { width, height, first, parts },
        ),
{
    let a = frame_tag(first.len() as int);
    let b = start_code();
    let c = le_bytes(width, 2);
    let d = le_bytes(height, 2);
    let f = size_table(parts, 0);
    let g = joined(parts, 0);
    let s = frame_bytes(width, height, first, parts);
    let n = first.len() as int;
    lemma_le_short(n * 32 + 16);
    lemma_le_short(width);
    lemma_le_short(height);
    lemma_split_parts(parts, 0);
    assert(s.take(3) =~= a);
    assert(s.subrange(3, 6) =~= b);
    assert(s.subrange(6, 8) =~= c);
    assert(s.subrange(8, 10) =~= d);
    let body = s.skip(10);
    assert(body =~= first + (f + g));
    assert(body.take(n) =~= first);
    assert(body.subrange(n, n + f.len()) =~= f);
    assert(body.skip(n + f.len()) =~= g);
    assert(parts.skip(0) =~= parts);
}

/// A file of less than four gigabytes holds its frame.
pub proof fn lemma_read_lossy_file(frame: Seq<u8>)
    requires
        frame.len() + 13 <= u32::MAX,
    ensures
        read_riff(lossy_file(frame)) == Some(chunk_bytes(VP8@, frame)),
        read_chunk(chunk_bytes(VP8@, frame)) == Some((VP8@, frame, Seq::<u8>::empty())),
{
    let inner = chunk_bytes(VP8@, frame);
    let n = frame.len() as int;
    assert(VP8@.len() == 4);
    lemma_chunk_len(VP8@, frame);
    lemma_read_riff(trunc32(12 + n + n % 2), inner);
    lemma_read_chunk(VP8@, frame, Seq::empty());
    assert(inner + Seq::<u8>::empty() =~= inner);
}

proof fn lemma_luma_ok(
    src: Seq<u8>,
    recon: Seq<u8>,
    stride: int,
    mb_x: int,
    mb_y: int,
    q_idx: int,
    n: nat,
)
    requires
        0 <= q_idx < 128,
    ensures
        blocks_ok(luma_run(src, recon, stride, mb_x, mb_y, q_idx, n).1, n as int),
    decreases n,
{
    if n > 0 {
        lemma_luma_ok(src, recon, stride, mb_x, mb_y, q_idx, (n - 1) as nat);
        let r = luma_run(src, recon, stride, mb_x, mb_y, q_idx, (n - 1) as nat).0;
        let x = mb_x * 16 + ((n - 1) % 4) * 4;
        let y = mb_y * 16 + ((n - 1) / 4) * 4;
        lemma_coded_block(src, stride, x, y, bdc_prediction(r, stride, x, y), q_idx);
    }
}

proof fn lemma_chroma_ok(
    src: Seq<u8>,
    recon: Seq<u8>,
    stride: int,
    mb_x: int,
    mb_y: int,
    pred: int,
    q_idx: int,
    n: nat,
)
    requires
        0 <= q_idx < 128,
    ensures
        blocks_ok(chroma_run(src, recon, stride, mb_x, mb_y, pred, q_idx, n).1, n as int),
    decreases n,
{
    if n > 0 {
        lemma_chroma_ok(src, recon, stride, mb_x, mb_y, pred, q_idx, (n - 1) as nat);
        let x = mb_x * 8 + ((n - 1) % 2) * 4;
        let y = mb_y * 8 + ((n - 1) / 2) * 4;
        lemma_coded_block(src, stride, x, y, pred, q_idx);
    }
}

proof fn lemma_coded_block(src: Seq<u8>, stride: int, x: int, y: int, pred: int, q_idx: int)
    requires
        0 <= q_idx < 128,
    ensures
        coded_block(src, stride, x, y, pred, q_idx).len() == 16,
        forall|j: int|
            0 <= j < 16 ==> -2047 <= #[trigger] coded_block(src, stride, x, y, pred, q_idx)[j]
                <= 2047,
{
    reveal(coded_block);
    lemma_quantized_range(fdct_spec(residual_spec(block_at(src, stride, x, y), pred)), q_idx);
}

proof fn lemma_run_ok(src: Planes, start: Planes, mb_width: int, q_idx: int, n: nat)
    requires
        0 <= q_idx < 128,
    ensures
        image_run(src, start, mb_width, q_idx, n).1.len() == n,
        forall|j: int|
            0 <= j < n ==> model_ok(#[trigger] image_run(src, start, mb_width, q_idx, n).1[j]),
    decreases n,
{
    if n > 0 {
        lemma_run_ok(src, start, mb_width, q_idx, (n - 1) as nat);
        let (recon, mbs) = image_run(src, start, mb_width, q_idx, (n - 1) as nat);
        let x = (n - 1) % mb_width;
        let y = (n - 1) / mb_width;
        let ys = mb_width * 16;
        let us = mb_width * 8;
        lemma_luma_ok(src.y, recon.y, ys, x, y, q_idx, 16);
        lemma_chroma_ok(
            src.u,
            recon.u,
            us,
            x,
            y,
            dc_prediction(recon.u, us, x * 8, y * 8),
            q_idx,
            4,
        );
        lemma_chroma_ok(
            src.v,
            recon.v,
            us,
            x,
            y,
            dc_prediction(recon.v, us, x * 8, y * 8),
            q_idx,
            4,
        );
    }
}

/// The coefficients of an image are read back from its partitions, however many there are.
pub proof fn lemma_read_image_blocks(
    rgb: Seq<u8>,
    width: int,
    height: int,
    quality: int,
    n: nat,
)
    requires
        1 <= width,
        1 <= height,
        0 <= quality,
        n >= 1,
    ensures
        read_rows(
            Seq::new(
                n,
                |p: int|
                    partition_from(
                        image_blocks(rgb, width, height, quality),
                        mb_count(width),
                        mb_count(height),
                        p,
                        n as int,
                    ),
            ),
            Seq::empty(),
            mb_count(width),
            mb_count(height),
            0,
        ) == Some(image_blocks(rgb, width, height, quality)),
{
    let mw = mb_count(width);
    let mh = mb_count(height);
    assert(mw * mh >= 0) by (nonlinear_arith)
        requires
            mw >= 0,
            mh >= 0,
    ;
    lemma_run_ok(
        source_planes(rgb, width, height),
        zero_planes(mw, mh),
        mw,
        q_index(quality),
        (mw * mh) as nat,
    );
    lemma_read_partitions(image_blocks(rgb, width, height, quality), mw, mh, n);
}

} // verus!
