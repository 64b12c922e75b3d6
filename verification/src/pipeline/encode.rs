//! Encoding of packed RGB images into the output formats.
use crate::pipeline::codecs::{
    avif_outcome, bmp_encoded, doubled, file_result, gif_encoded, load_image, loaded, loads_as,
    png_encoded, readable_size, tiff_outcome, write_avif, write_bmp, write_gif, write_png,
    write_tiff, PngDepth,
};
use crate::pipeline::format::{format_of, has_at, SourceFormat};
use crate::pipeline::image::{DecodedImage, ImageModel};
use crate::pipeline::jxl_options::{bytes_result, encode_jxl_rgb, jxl_encoded, JxlPlan};
use crate::pipeline::tiff::tiff_page;
use crate::raster::RgbImage;
use crate::request::{
    encode_failed, unencoded, AvifEncodeOptions, ChromaSubsampling, CrabMagickError, EncodeOptions,
    ErrorModel, JpegEncodeOptions, JxlEncodeOptions, PngEncodeOptions, TiffCompression,
    TiffEncodeOptions, WebpEncodeOptions,
};
use crate::vp8::encoder::{
    encode_lossy_webp, encodes, frame_bytes, frame_error, lossy_file, mb_count, streams_of,
    WebPEncodeError,
};
use crate::vp8::partitions::token_partitions;
use crate::webp::encoder::{
    file_bytes, file_size, has_metadata, inner_chunks, ColorType, Metadata, WebPEncoder,
};
use crate::webp::frame::{is_frame_of, valid_dimensions};
use crate::webp::riff::{chunk_bytes, le_bytes, riff_bytes, trunc32, RIFF, VP8, WEBP};
use vstd::prelude::*;

verus! {

/// Codecs that a build may lack.
#[derive(Debug, Clone, Copy, PartialEq, Eq, Structural)]
pub struct Features {
    /// PDF input.
    pub pdf: bool,
    /// AVIF input and output.
    pub avif: bool,
}

/// What a JPEG encoder is asked for.
#[derive(Debug, Clone, Copy, PartialEq, Eq, Structural)]
pub struct JpegPlan {
    /// Quality, at most 100.
    pub quality: u8,
    /// Chroma subsampling, never left open.
    pub chroma_subsampling: ChromaSubsampling,
    /// Progressive scans.
    pub progressive: bool,
    /// Restart interval.
    pub restart_interval: u16,
    /// Optimal Huffman tables.
    pub optimize_huffman: bool,
}

/// At which step a JPEG encoder failed, and why.
#[derive(Debug)]
pub enum JpegEncodeFailure {
    /// It could not start.
    Start(String),
    /// It did not take the pixels.
    Pixels(String),
    /// It could not finish.
    Finish(String),
}

/// A quality, at most 100.
pub open spec fn capped(quality: u8) -> u8 {
    if quality < 100 {
        quality
    } else {
        100
    }
}

/// The plan for JPEG options: open subsampling becomes 4:2:0 below quality 90 and 4:4:4 from
/// there on; progressive scans come with optimal tables.
pub open spec fn jpeg_plan(o: JpegEncodeOptions) -> JpegPlan {
    JpegPlan {
        quality: capped(o.quality),
        chroma_subsampling: if o.chroma_subsampling is Auto {
            if o.quality < 90 {
                ChromaSubsampling::Cs420
            } else {
                ChromaSubsampling::Cs444
            }
        } else {
            o.chroma_subsampling
        },
        progressive: o.progressive,
        restart_interval: o.restart_interval,
        optimize_huffman: o.optimize_huffman || o.progressive,
    }
}

fn cap(quality: u8) -> (r: u8)
    ensures
        r == capped(quality),
{
    if quality < 100 {
        quality
    } else {
        100
    }
}

/// The plan for JPEG options.
pub fn plan_jpeg(options: &JpegEncodeOptions) -> (r: JpegPlan)
    ensures
        r == jpeg_plan(*options),
{
    let chroma_subsampling: ChromaSubsampling = match options.chroma_subsampling {
        ChromaSubsampling::Auto => if options.quality < 90 {
            ChromaSubsampling::Cs420
        } else {
            ChromaSubsampling::Cs444
        },
        other => other,
    };
    JpegPlan {
        quality: cap(options.quality),
        chroma_subsampling,
        progressive: options.progressive,
        restart_interval: options.restart_interval,
        optimize_huffman: options.optimize_huffman || options.progressive,
    }
}

/// What a JPEG encoder's reply comes to.
pub open spec fn jpeg_outcome(reply: Result<Vec<u8>, JpegEncodeFailure>) -> Result<
    Seq<u8>,
    ErrorModel,
> {
    match reply {
        Ok(v) => Ok(v@),
        Err(JpegEncodeFailure::Start(why)) => Err(
            unencoded("JPEG encoder initialization failed: "@, why@),
        ),
        Err(JpegEncodeFailure::Pixels(why)) => Err(
            unencoded("JPEG pixel upload failed: "@, why@),
        ),
        Err(JpegEncodeFailure::Finish(why)) => Err(
            unencoded("JPEG finalization failed: "@, why@),
        ),
    }
}

/// What a JPEG encoder's reply comes to.
pub fn finish_jpeg(reply: Result<Vec<u8>, JpegEncodeFailure>) -> (r: Result<
    Vec<u8>,
    CrabMagickError,
>)
    ensures
        bytes_result(r) == jpeg_outcome(reply),
{
    match reply {
        Ok(v) => Ok(v),
        Err(failure) => match failure {
            JpegEncodeFailure::Start(why) => Err(
                encode_failed("JPEG encoder initialization failed: ", &why),
            ),
            JpegEncodeFailure::Pixels(why) => Err(
                encode_failed("JPEG pixel upload failed: ", &why),
            ),
            JpegEncodeFailure::Finish(why) => Err(
                encode_failed("JPEG finalization failed: ", &why),
            ),
        },
    }
}

/// The file is what the JPEG encoder makes of the plan for the options.
pub open spec fn jpeg_encoded<
    J: Fn(&JpegPlan, &[u8], u32, u32) -> Result<Vec<u8>, JpegEncodeFailure>,
>(encoder: J, m: ImageModel, o: JpegEncodeOptions, r: Result<Seq<u8>, ErrorModel>) -> bool {
    exists|pixels: &[u8], reply: Result<Vec<u8>, JpegEncodeFailure>|
        {
            &&& #[trigger] call_ensures(
                encoder,
                (&jpeg_plan(o), pixels, m.width, m.height),
                reply,
            )
            &&& pixels@ == m.pixels
            &&& r == jpeg_outcome(reply)
        }
}

/// Encodes as JPEG.
fn encode_jpeg<J: Fn(&JpegPlan, &[u8], u32, u32) -> Result<Vec<u8>, JpegEncodeFailure>>(
    image: &DecodedImage,
    options: &JpegEncodeOptions,
    encoder: &J,
) -> (r: Result<Vec<u8>, CrabMagickError>)
    requires
        forall|plan: &JpegPlan, pixels: &[u8], w: u32, h: u32| #[trigger]
            call_requires(*encoder, (plan, pixels, w, h)),
    ensures
        jpeg_encoded(*encoder, image@, *options, bytes_result(r)),
{
    let plan: JpegPlan = plan_jpeg(options);
    let pixels: &[u8] = image.pixels.as_slice();
    let reply: Result<Vec<u8>, JpegEncodeFailure> = encoder(
        &plan,
        pixels,
        image.width,
        image.height,
    );
    let ghost shown = reply;
    assert(call_ensures(*encoder, (&jpeg_plan(*options), pixels, image.width, image.height), shown));
    finish_jpeg(reply)
}

// ---- WebP ----
/// What the lossy encoder's result comes to.
pub open spec fn webp_outcome(r: Result<Vec<u8>, WebPEncodeError>) -> Result<
    Seq<u8>,
    ErrorModel,
> {
    match r {
        Ok(v) => Ok(v@),
        Err(e) => Err(unencoded("WebP encoding failed: "@, e.0@)),
    }
}

/// The buffer has too few bytes for its size.
pub open spec fn is_short(m: ImageModel) -> bool {
    m.pixels.len() < 3 * (m.width * m.height)
}

/// The error for a buffer with too few bytes.
pub open spec fn shape_error() -> ErrorModel {
    ErrorModel::EncodeError("WebP encoding received an invalid RGB buffer shape"@)
}

/// The bytes of all pixels.
pub open spec fn pixel_bytes(m: ImageModel) -> Seq<u8> {
    m.pixels.subrange(0, 3 * (m.width * m.height))
}

/// The file is the lossy encoding of the image.
pub open spec fn lossy_webp_encoded(
    m: ImageModel,
    quality: u8,
    r: Result<Seq<u8>, ErrorModel>,
) -> bool {
    if is_short(m) {
        r == Err::<Seq<u8>, ErrorModel>(shape_error())
    } else {
        exists|out: Result<Vec<u8>, WebPEncodeError>|
            {
                &&& #[trigger] encodes(
                    out,
                    pixel_bytes(m),
                    m.width as int,
                    m.height as int,
                    capped(quality) as int,
                    token_partitions(mb_count(m.height as int)),
                )
                &&& r == webp_outcome(out)
            }
    }
}

/// The file is the lossless encoding of the image.
pub open spec fn lossless_webp_encoded(m: ImageModel, r: Result<Seq<u8>, ErrorModel>) -> bool {
    if is_short(m) {
        r == Err::<Seq<u8>, ErrorModel>(shape_error())
    } else if !valid_dimensions(m.width, m.height) {
        r == Err::<Seq<u8>, ErrorModel>(unencoded("WebP encoding failed: "@, "Invalid dimensions"@))
    } else {
        &&& r is Ok
        &&& exists|frame: Seq<u8>, meta: Metadata|
            {
                &&& is_frame_of(frame, pixel_bytes(m), m.width, m.height, ColorType::Rgb8, true)
                &&& !has_metadata(meta)
                &&& r->Ok_0 == #[trigger] file_bytes(
                    frame,
                    meta,
                    ColorType::Rgb8,
                    m.width,
                    m.height,
                )
            }
    }
}

/// The image with the bytes of all its pixels and no more, if it has them.
fn to_raster(image: DecodedImage) -> (r: Option<RgbImage>)
    ensures
        r is None <==> is_short(image@),
        r is Some ==> {
            &&& r->Some_0.wf()
            &&& r->Some_0.width == image.width
            &&& r->Some_0.height == image.height
            &&& r->Some_0.data@ == pixel_bytes(image@)
        },
{
    let width: u32 = image.width;
    let height: u32 = image.height;
    assert(0 <= width * height <= 0xFFFF_FFFF * 0xFFFF_FFFF) by (nonlinear_arith)
        requires
            width <= 0xFFFF_FFFF,
            height <= 0xFFFF_FFFF,
    ;
    let needed: u128 = 3 * (width as u128 * height as u128);
    if (image.pixels.len() as u128) < needed {
        return None;
    }
    let mut data: Vec<u8> = image.pixels;
    data.truncate(needed as usize);
    assert(data@ =~= pixel_bytes(image@));
    Some(RgbImage { width, height, data })
}

/// Encodes as lossy WebP.
fn encode_webp(image: DecodedImage, quality: u8) -> (r: Result<Vec<u8>, CrabMagickError>)
    ensures
        lossy_webp_encoded(image@, quality, bytes_result(r)),
{
    match to_raster(image) {
        None => Err(
            CrabMagickError::encode_error("WebP encoding received an invalid RGB buffer shape"),
        ),
        Some(rgb) => {
            let out: Result<Vec<u8>, WebPEncodeError> = encode_lossy_webp(&rgb, cap(quality));
            let ghost shown = out;
            assert(encodes(
                shown,
                pixel_bytes(image@),
                image.width as int,
                image.height as int,
                capped(quality) as int,
                token_partitions(mb_count(image.height as int)),
            ));
            match out {
                Ok(v) => Ok(v),
                Err(e) => Err(encode_failed("WebP encoding failed: ", e.message())),
            }
        },
    }
}

/// Encodes as lossless WebP.
fn encode_webp_lossless(image: DecodedImage) -> (r: Result<Vec<u8>, CrabMagickError>)
    ensures
        lossless_webp_encoded(image@, bytes_result(r)),
{
    match to_raster(image) {
        None => Err(
            CrabMagickError::encode_error("WebP encoding received an invalid RGB buffer shape"),
        ),
        Some(rgb) => {
            let encoder: WebPEncoder = WebPEncoder::new(Vec::new());
            let ghost meta = encoder.metadata();
            match encoder.encode(rgb.data.as_slice(), rgb.width, rgb.height, ColorType::Rgb8) {
                Ok(v) => {
                    proof {
                        let frame = choose|frame: Seq<u8>|
                            {
                                &&& #[trigger] is_frame_of(
                                    frame,
                                    pixel_bytes(image@),
                                    image.width,
                                    image.height,
                                    ColorType::Rgb8,
                                    true,
                                )
                                &&& v@ == Seq::<u8>::empty() + file_bytes(
                                    frame,
                                    meta,
                                    ColorType::Rgb8,
                                    image.width,
                                    image.height,
                                )
                            };
                        assert(v@ =~= file_bytes(
                            frame,
                            meta,
                            ColorType::Rgb8,
                            image.width,
                            image.height,
                        ));
                    }
                    Ok(v)
                },
                Err(_) => {
                    let text: String = "Invalid dimensions".to_owned();
                    Err(encode_failed("WebP encoding failed: ", &text))
                },
            }
        },
    }
}

// ---- outside codecs ----
/// A file, or an error with what failed.
pub open spec fn file_outcome(r: Result<Seq<u8>, Seq<char>>, what: Seq<char>) -> Result<
    Seq<u8>,
    ErrorModel,
> {
    match r {
        Ok(v) => Ok(v),
        Err(why) => Err(unencoded(what, why)),
    }
}

/// A file, or an error with what failed.
pub fn finish_file(r: Result<Vec<u8>, String>, what: &str) -> (out: Result<
    Vec<u8>,
    CrabMagickError,
>)
    ensures
        bytes_result(out) == file_outcome(file_result(r), what@),
{
    match r {
        Ok(v) => Ok(v),
        Err(why) => Err(encode_failed(what, &why)),
    }
}

/// The pixels of an image, three bytes each.
pub open spec fn pixel_triples(pixels: Seq<u8>) -> Seq<(u8, u8, u8)> {
    Seq::new(
        pixels.len() / 3,
        |i: int| (pixels[3 * i], pixels[3 * i + 1], pixels[3 * i + 2]),
    )
}

/// The pixels of an image, three bytes each.
pub fn triples(pixels: &Vec<u8>) -> (r: Vec<(u8, u8, u8)>)
    ensures
        r@ == pixel_triples(pixels@),
{
    let total: usize = pixels.len();
    let n: usize = total / 3;
    let mut r: Vec<(u8, u8, u8)> = Vec::new();
    let mut i: usize = 0;
    while i < n
        invariant
            i <= n,
            n == total / 3,
            total == pixels@.len(),
            r@.len() == i,
            forall|k: int|
                0 <= k < i ==> #[trigger] r@[k] == (
                    pixels@[3 * k],
                    pixels@[3 * k + 1],
                    pixels@[3 * k + 2],
                ),
        decreases n - i,
    {
        r.push((pixels[3 * i], pixels[3 * i + 1], pixels[3 * i + 2]));
        i = i + 1;
    }
    assert(r@ =~= pixel_triples(pixels@));
    r
}

/// A quality of 1 to 100.
pub open spec fn clamped(quality: u8) -> u8 {
    if quality < 1 {
        1
    } else if quality > 100 {
        100
    } else {
        quality
    }
}

/// A quality of 1 to 100.
pub fn clamp_quality(quality: u8) -> (r: u8)
    ensures
        r == clamped(quality),
        1 <= r <= 100,
{
    if quality < 1 {
        1
    } else if quality > 100 {
        100
    } else {
        quality
    }
}

// ---- PNG ----
/// The depth that the options ask for.
pub open spec fn png_depth(bitdepth: u8) -> PngDepth {
    if bitdepth == 16 {
        PngDepth::Sixteen
    } else {
        PngDepth::Eight
    }
}

/// The samples of an image at a depth.
pub open spec fn png_samples(pixels: Seq<u8>, depth: PngDepth) -> Seq<u8> {
    match depth {
        PngDepth::Eight => pixels,
        PngDepth::Sixteen => doubled(pixels),
    }
}

/// A compression level of 0 to 9.
pub open spec fn png_level(compression: u8) -> u8 {
    if compression > 9 {
        9
    } else {
        compression
    }
}

/// What encoding an image as PNG with options comes to.
pub open spec fn png_file(m: ImageModel, o: PngEncodeOptions) -> Result<Seq<u8>, Seq<char>> {
    let depth = png_depth(o.bitdepth);
    png_encoded(
        png_samples(m.pixels, depth),
        m.width,
        m.height,
        depth,
        png_level(o.compression),
        o.filter,
    )
}

/// Samples of eight bits as samples of sixteen.
pub fn double_samples(pixels: &Vec<u8>) -> (r: Vec<u8>)
    ensures
        r@ == doubled(pixels@),
{
    let mut r: Vec<u8> = Vec::new();
    let mut i: usize = 0;
    while i < pixels.len()
        invariant
            i <= pixels@.len(),
            r@.len() == 2 * i,
            forall|k: int| 0 <= k < 2 * i ==> #[trigger] r@[k] == pixels@[k / 2],
        decreases pixels@.len() - i,
    {
        r.push(pixels[i]);
        r.push(pixels[i]);
        i = i + 1;
    }
    assert(r@ =~= doubled(pixels@));
    r
}

/// Encodes as PNG.
fn encode_png(image: &DecodedImage, options: &PngEncodeOptions) -> (r: Result<
    Vec<u8>,
    CrabMagickError,
>)
    requires
        image@.wf(),
    ensures
        bytes_result(r) == file_outcome(png_file(image@, *options), "PNG encoding failed: "@),
        r is Ok ==> format_of(r->Ok_0@) == SourceFormat::Png,
        readable_size(image.width, image.height) ==> r is Ok && loads_as(
            r->Ok_0@,
            image@.pixels,
            image.width,
            image.height,
        ),
{
    let level: u8 = if options.compression > 9 {
        9
    } else {
        options.compression
    };
    let r: Result<Vec<u8>, String> = if options.bitdepth == 16 {
        let samples: Vec<u8> = double_samples(&image.pixels);
        write_png(
            samples.as_slice(),
            image.width,
            image.height,
            PngDepth::Sixteen,
            level,
            options.filter,
        )
    } else {
        write_png(
            image.pixels.as_slice(),
            image.width,
            image.height,
            PngDepth::Eight,
            level,
            options.filter,
        )
    };
    finish_file(r, "PNG encoding failed: ")
}

// ---- GIF ----
/// The speed that an effort of 1 to 10 stands for: 28 for the least, 1 for the most.
pub open spec fn gif_speed(effort: u8) -> u8 {
    if effort < 1 {
        28
    } else if effort > 10 {
        1
    } else {
        (31 - 3 * effort) as u8
    }
}

pub fn speed_of_gif(effort: u8) -> (r: u8)
    ensures
        r == gif_speed(effort),
        1 <= r <= 30,
{
    if effort < 1 {
        28
    } else if effort > 10 {
        1
    } else {
        31 - 3 * effort
    }
}

// ---- AVIF ----
/// The speed that an effort of 1 to 10 stands for: 9 for the least, 1 for the most.
pub open spec fn avif_speed(effort: u8) -> u8 {
    if effort < 1 {
        9
    } else if effort >= 9 {
        1
    } else {
        (10 - effort) as u8
    }
}

pub fn speed_of_avif(effort: u8) -> (r: u8)
    ensures
        r == avif_speed(effort),
        1 <= r <= 10,
{
    if effort < 1 {
        9
    } else if effort >= 9 {
        1
    } else {
        10 - effort
    }
}

/// The outcome is one that encoding the image as AVIF may come to.
pub open spec fn avif_encoded(
    m: ImageModel,
    o: AvifEncodeOptions,
    r: Result<Seq<u8>, ErrorModel>,
) -> bool {
    exists|file: Result<Seq<u8>, Seq<char>>|
        {
            &&& #[trigger] avif_outcome(
                pixel_triples(m.pixels),
                m.width,
                m.height,
                clamped(o.quality),
                avif_speed(o.effort),
                file,
            )
            &&& r == file_outcome(file, "AVIF encoding failed: "@)
        }
}

/// Encodes as AVIF.
fn encode_avif_rgb(image: &DecodedImage, options: &AvifEncodeOptions, features: Features) -> (r:
    Result<Vec<u8>, CrabMagickError>)
    requires
        features.avif ==> image@.wf() && image.width > 0 && image.height > 0,
    ensures
        !features.avif ==> bytes_result(r) == Err::<Seq<u8>, ErrorModel>(
            ErrorModel::EncodeError(
                "AVIF output is unavailable in this build; enable the `avif` feature"@,
            ),
        ),
        features.avif ==> avif_encoded(image@, *options, bytes_result(r)),
        r is Ok ==> format_of(r->Ok_0@) == SourceFormat::Avif,
{
    if !features.avif {
        return Err(
            CrabMagickError::encode_error(
                "AVIF output is unavailable in this build; enable the `avif` feature",
            ),
        );
    }
    let pixels: Vec<(u8, u8, u8)> = triples(&image.pixels);
    let r: Result<Vec<u8>, String> = write_avif(
        &pixels,
        image.width,
        image.height,
        clamp_quality(options.quality),
        speed_of_avif(options.effort),
    );
    let ghost file = file_result(r);
    assert(avif_outcome(
        pixel_triples(image@.pixels),
        image.width,
        image.height,
        clamped(options.quality),
        avif_speed(options.effort),
        file,
    ));
    finish_file(r, "AVIF encoding failed: ")
}

// ---- TIFF ----
/// The predictor is for LZW and Deflate.
pub open spec fn tiff_predicts(o: TiffEncodeOptions) -> bool {
    o.predictor && (o.compression is Lzw || o.compression is Deflate)
}

/// The outcome is one that encoding the image as TIFF may come to.
pub open spec fn tiff_encoded(
    m: ImageModel,
    o: TiffEncodeOptions,
    r: Result<Seq<u8>, ErrorModel>,
) -> bool {
    exists|file: Result<Seq<u8>, Seq<char>>|
        {
            &&& #[trigger] tiff_outcome(
                m.pixels,
                m.width,
                m.height,
                o.compression,
                tiff_predicts(o),
                file,
            )
            &&& r == file_outcome(file, "TIFF encoding failed: "@)
        }
}

/// Encodes as TIFF.
fn encode_tiff(image: &DecodedImage, options: &TiffEncodeOptions) -> (r: Result<
    Vec<u8>,
    CrabMagickError,
>)
    requires
        !(options.compression is Jpeg) ==> image@.wf(),
    ensures
        options.compression is Jpeg ==> bytes_result(r) == Err::<Seq<u8>, ErrorModel>(
            ErrorModel::EncodeError("TIFF encoding failed: JPEG compression is unavailable"@),
        ),
        !(options.compression is Jpeg) ==> tiff_encoded(image@, *options, bytes_result(r)),
        r is Ok ==> format_of(r->Ok_0@) == SourceFormat::Tiff,
        !(options.compression is Jpeg) && readable_size(image.width, image.height) ==> r is Ok
            && tiff_page(r->Ok_0@, 0) == Ok::<ImageModel, ErrorModel>(image@),
{
    match options.compression {
        TiffCompression::Jpeg => Err(
            CrabMagickError::encode_error("TIFF encoding failed: JPEG compression is unavailable"),
        ),
        compression => {
            let predictor: bool = options.predictor && match compression {
                TiffCompression::Lzw | TiffCompression::Deflate => true,
                _ => false,
            };
            let r: Result<Vec<u8>, String> = write_tiff(
                image.pixels.as_slice(),
                image.width,
                image.height,
                compression,
                predictor,
            );
            let ghost file = file_result(r);
            assert(tiff_outcome(
                image@.pixels,
                image.width,
                image.height,
                options.compression,
                tiff_predicts(*options),
                file,
            ));
            finish_file(r, "TIFF encoding failed: ")
        },
    }
}

// ---- JPEG XL ----
/// The settings for an output's options at a distance.
pub open spec fn jxl_settings_for(
    o: JxlEncodeOptions,
    distance: u32,
) -> crate::pipeline::jxl_options::JxlEncodeOptions {
    crate::pipeline::jxl_options::JxlEncodeOptions {
        lossless: o.lossless,
        distance: Some(distance),
        effort: o.effort,
        ..crate::pipeline::jxl_options::JxlEncodeOptions::initial()
    }
}

/// The distance is the one given, else the one that the quality stands for.
pub open spec fn is_distance_for<D: Fn(u8) -> u32>(
    distance: D,
    o: JxlEncodeOptions,
    d: u32,
) -> bool {
    match o.distance {
        Some(given) => d == given,
        None => call_ensures(distance, (clamped(o.quality),), d),
    }
}

/// The file is what the JPEG XL encoder makes of the settings for the options.
pub open spec fn jxl_output<
    D: Fn(u8) -> u32,
    X: Fn(&JxlPlan, &[u8], u32, u32) -> Result<Vec<u8>, String>,
>(
    distance: D,
    encoder: X,
    m: ImageModel,
    o: JxlEncodeOptions,
    r: Result<Seq<u8>, ErrorModel>,
) -> bool {
    exists|d: u32, pixels: &[u8]|
        {
            &&& is_distance_for(distance, o, d)
            &&& pixels@ == m.pixels
            &&& #[trigger] jxl_encoded(
                encoder,
                pixels,
                m.width,
                m.height,
                jxl_settings_for(o, d),
                r,
            )
        }
}

/// Encodes as JPEG XL.
fn encode_jxl<
    D: Fn(u8) -> u32,
    X: Fn(&JxlPlan, &[u8], u32, u32) -> Result<Vec<u8>, String>,
>(
    image: &DecodedImage,
    options: &JxlEncodeOptions,
    distance: &D,
    encoder: &X,
) -> (r: Result<Vec<u8>, CrabMagickError>)
    requires
        forall|q: u8| 1 <= q <= 100 ==> #[trigger] call_requires(*distance, (q,)),
        forall|plan: &JxlPlan, pixels: &[u8], w: u32, h: u32| #[trigger]
            call_requires(*encoder, (plan, pixels, w, h)),
    ensures
        jxl_output(*distance, *encoder, image@, *options, bytes_result(r)),
{
    let d: u32 = match options.distance {
        Some(given) => given,
        None => distance(clamp_quality(options.quality)),
    };
    assert(is_distance_for(*distance, *options, d));
    let mut settings: crate::pipeline::jxl_options::JxlEncodeOptions =
        crate::pipeline::jxl_options::JxlEncodeOptions::default();
    settings.lossless = options.lossless;
    settings.distance = Some(d);
    settings.effort = options.effort;
    assert(settings == jxl_settings_for(*options, d));
    let pixels: &[u8] = image.pixels.as_slice();
    let r: Result<Vec<u8>, CrabMagickError> = encode_jxl_rgb(
        pixels,
        image.width,
        image.height,
        &settings,
        encoder,
    );
    assert(jxl_encoded(
        *encoder,
        pixels,
        image@.width,
        image@.height,
        jxl_settings_for(*options, d),
        bytes_result(r),
    ));
    r
}

// ---- any format ----
/// The encoder that the options ask for takes the image.
pub open spec fn encodable(m: ImageModel, options: EncodeOptions, features: Features) -> bool {
    match options {
        EncodeOptions::Png(_) => m.wf(),
        EncodeOptions::Gif(_) => m.wf(),
        EncodeOptions::Bmp => m.wf(),
        EncodeOptions::Tiff(o) => o.compression is Jpeg || m.wf(),
        EncodeOptions::Avif(_) => features.avif ==> m.wf() && m.width > 0 && m.height > 0,
        _ => true,
    }
}

/// The file is what the options ask for.
pub open spec fn encoded<
    D: Fn(u8) -> u32,
    J: Fn(&JpegPlan, &[u8], u32, u32) -> Result<Vec<u8>, JpegEncodeFailure>,
    X: Fn(&JxlPlan, &[u8], u32, u32) -> Result<Vec<u8>, String>,
>(
    features: Features,
    distance: D,
    jpeg: J,
    jxl: X,
    m: ImageModel,
    options: EncodeOptions,
    r: Result<Seq<u8>, ErrorModel>,
) -> bool {
    match options {
        EncodeOptions::Jpeg(o) => jpeg_encoded(jpeg, m, o, r),
        EncodeOptions::Webp(o) => if o.lossless {
            lossless_webp_encoded(m, r)
        } else {
            lossy_webp_encoded(m, o.quality, r)
        },
        EncodeOptions::Png(o) => r == file_outcome(png_file(m, o), "PNG encoding failed: "@),
        EncodeOptions::Jxl(o) => jxl_output(distance, jxl, m, o, r),
        EncodeOptions::Avif(o) => if features.avif {
            avif_encoded(m, o, r)
        } else {
            r == Err::<Seq<u8>, ErrorModel>(
                ErrorModel::EncodeError(
                    "AVIF output is unavailable in this build; enable the `avif` feature"@,
                ),
            )
        },
        EncodeOptions::Tiff(o) => if o.compression is Jpeg {
            r == Err::<Seq<u8>, ErrorModel>(
                ErrorModel::EncodeError("TIFF encoding failed: JPEG compression is unavailable"@),
            )
        } else {
            tiff_encoded(m, o, r)
        },
        EncodeOptions::Gif(o) => r == file_outcome(
            gif_encoded(m.pixels, m.width, m.height, gif_speed(o.effort)),
            "GIF encoding failed: "@,
        ),
        EncodeOptions::Bmp => r == file_outcome(
            bmp_encoded(m.pixels, m.width, m.height),
            "BMP encoding failed: "@,
        ),
    }
}

/// The format that a file written for the options is told to have; left open where the encoder is
/// the caller's.
pub open spec fn written_format(options: EncodeOptions) -> Option<SourceFormat> {
    match options {
        EncodeOptions::Jpeg(_) => None,
        EncodeOptions::Jxl(_) => None,
        EncodeOptions::Webp(_) => Some(SourceFormat::Webp),
        EncodeOptions::Png(_) => Some(SourceFormat::Png),
        EncodeOptions::Avif(_) => Some(SourceFormat::Avif),
        EncodeOptions::Tiff(_) => Some(SourceFormat::Tiff),
        EncodeOptions::Gif(_) => Some(SourceFormat::Gif),
        EncodeOptions::Bmp => Some(SourceFormat::Bmp),
    }
}

/// Whether a file for the options keeps every pixel of the image, within the limits of decoders.
pub open spec fn kept(m: ImageModel, options: EncodeOptions) -> bool {
    &&& readable_size(m.width, m.height)
    &&& match options {
        EncodeOptions::Png(_) => true,
        EncodeOptions::Bmp => true,
        EncodeOptions::Tiff(o) => !(o.compression is Jpeg),
        _ => false,
    }
}

/// The image that a file of a lossless format holds.
pub open spec fn held(bytes: Seq<u8>, options: EncodeOptions) -> Result<ImageModel, ErrorModel> {
    match options {
        EncodeOptions::Tiff(_) => tiff_page(bytes, 0),
        _ => load_image(loaded(bytes), "generic image decode failed: "@),
    }
}

/// A container is told to be WebP.
proof fn lemma_riff_format(size: u32, inner: Seq<u8>)
    ensures
        format_of(riff_bytes(size, inner)) == SourceFormat::Webp,
{
    let s = riff_bytes(size, inner);
    reveal_with_fuel(le_bytes, 5);
    assert(le_bytes(size as int, 4).len() == 4);
    assert(RIFF@ =~= seq![0x52u8, 0x49, 0x46, 0x46]);
    assert(WEBP@ =~= seq![0x57u8, 0x45, 0x42, 0x50]);
    assert(s.subrange(0, 4) =~= RIFF@);
    assert(s.subrange(8, 12) =~= WEBP@);
    assert(s[0] == 0x52);
    assert(has_at(s, 0, seq![0x52u8, 0x49, 0x46, 0x46]));
    assert(has_at(s, 8, seq![0x57u8, 0x45, 0x42, 0x50]));
    lemma_first(s, seq![0xFFu8, 0x0A]);
    lemma_first(s, seq![0u8, 0, 0]);
    lemma_first(s, seq![0xFFu8, 0xD8, 0xFF]);
    lemma_first(s, seq![0x89u8, 0x50, 0x4E, 0x47]);
}

/// Data whose first byte is another does not have the bytes at its start.
proof fn lemma_first(s: Seq<u8>, magic: Seq<u8>)
    requires
        s.len() > 0,
        magic.len() > 0,
        s[0] != magic[0],
    ensures
        !has_at(s, 0, magic),
{
    if has_at(s, 0, magic) {
        assert(s.subrange(0, magic.len() as int)[0] == magic[0]);
    }
}

/// A lossy or lossless WebP file is told to be WebP.
proof fn lemma_webp_format(m: ImageModel, o: WebpEncodeOptions, r: Result<Seq<u8>, ErrorModel>)
    requires
        r is Ok,
        o.lossless ==> lossless_webp_encoded(m, r),
        !o.lossless ==> lossy_webp_encoded(m, o.quality, r),
    ensures
        format_of(r->Ok_0) == SourceFormat::Webp,
{
    if o.lossless {
        let (frame, meta) = choose|frame: Seq<u8>, meta: Metadata|
            {
                &&& is_frame_of(frame, pixel_bytes(m), m.width, m.height, ColorType::Rgb8, true)
                &&& !has_metadata(meta)
                &&& r->Ok_0 == #[trigger] file_bytes(
                    frame,
                    meta,
                    ColorType::Rgb8,
                    m.width,
                    m.height,
                )
            };
        lemma_riff_format(
            file_size(frame, meta),
            inner_chunks(frame, meta, ColorType::Rgb8, m.width, m.height),
        );
    } else {
        let n = token_partitions(mb_count(m.height as int));
        let out = choose|out: Result<Vec<u8>, WebPEncodeError>|
            {
                &&& #[trigger] encodes(
                    out,
                    pixel_bytes(m),
                    m.width as int,
                    m.height as int,
                    capped(o.quality) as int,
                    n,
                )
                &&& r == webp_outcome(out)
            };
        let (first, parts) = choose|first: Seq<u8>, parts: Seq<Seq<u8>>|
            #![trigger frame_bytes(m.width as int, m.height as int, first, parts)]
            {
                &&& streams_of(
                    pixel_bytes(m),
                    m.width as int,
                    m.height as int,
                    capped(o.quality) as int,
                    n,
                    first,
                    parts,
                )
                &&& match frame_error(first, parts) {
                    Some(message) => out is Err && out->Err_0.0@ == message,
                    None => out is Ok && out->Ok_0@ == lossy_file(
                        frame_bytes(m.width as int, m.height as int, first, parts),
                    ),
                }
            };
        let frame = frame_bytes(m.width as int, m.height as int, first, parts);
        lemma_riff_format(
            trunc32(12 + frame.len() as int + frame.len() as int % 2),
            chunk_bytes(VP8@, frame),
        );
    }
}

/// Encodes an image as the options ask for.
///
/// The files of the AVIF and TIFF encoders depend on the machine: of these only the errors are
/// told.
pub fn encode<
    D: Fn(u8) -> u32,
    J: Fn(&JpegPlan, &[u8], u32, u32) -> Result<Vec<u8>, JpegEncodeFailure>,
    X: Fn(&JxlPlan, &[u8], u32, u32) -> Result<Vec<u8>, String>,
>(
    image: DecodedImage,
    options: &EncodeOptions,
    features: Features,
    distance: &D,
    jpeg: &J,
    jxl: &X,
) -> (r: Result<Vec<u8>, CrabMagickError>)
    requires
        encodable(image@, *options, features),
        forall|q: u8| 1 <= q <= 100 ==> #[trigger] call_requires(*distance, (q,)),
        forall|plan: &JpegPlan, pixels: &[u8], w: u32, h: u32| #[trigger]
            call_requires(*jpeg, (plan, pixels, w, h)),
        forall|plan: &JxlPlan, pixels: &[u8], w: u32, h: u32| #[trigger]
            call_requires(*jxl, (plan, pixels, w, h)),
    ensures
        encoded(features, *distance, *jpeg, *jxl, image@, *options, bytes_result(r)),
        r is Ok && written_format(*options) is Some ==> Some(format_of(r->Ok_0@))
            == written_format(*options),
        kept(image@, *options) ==> r is Ok && held(r->Ok_0@, *options) == Ok::<
            ImageModel,
            ErrorModel,
        >(image@),
{
    let ghost m = image@;
    match options {
        EncodeOptions::Jpeg(o) => encode_jpeg(&image, o, jpeg),
        EncodeOptions::Webp(o) => {
            let r: Result<Vec<u8>, CrabMagickError> = if o.lossless {
                encode_webp_lossless(image)
            } else {
                encode_webp(image, o.quality)
            };
            proof {
                if r is Ok {
                    lemma_webp_format(m, *o, bytes_result(r));
                }
            }
            r
        },
        EncodeOptions::Png(o) => encode_png(&image, o),
        EncodeOptions::Jxl(o) => encode_jxl(&image, o, distance, jxl),
        EncodeOptions::Avif(o) => encode_avif_rgb(&image, o, features),
        EncodeOptions::Tiff(o) => encode_tiff(&image, o),
        EncodeOptions::Gif(o) => finish_file(
            write_gif(
                image.pixels.as_slice(),
                image.width,
                image.height,
                speed_of_gif(o.effort),
            ),
            "GIF encoding failed: ",
        ),
        EncodeOptions::Bmp => finish_file(
            write_bmp(image.pixels.as_slice(), image.width, image.height),
            "BMP encoding failed: ",
        ),
    }
}

/// Whether the image has the bytes of all its pixels and no more.
fn is_sound(image: &DecodedImage) -> (r: bool)
    ensures
        r == image@.wf(),
{
    assert(0 <= image.width * image.height <= 0xFFFF_FFFF * 0xFFFF_FFFF) by (nonlinear_arith)
        requires
            image.width <= 0xFFFF_FFFF,
            image.height <= 0xFFFF_FFFF,
    ;
    image.pixels.len() as u128 == 3 * (image.width as u128 * image.height as u128)
}

/// Whether the encoder that the options ask for takes the image.
pub fn can_encode(image: &DecodedImage, options: &EncodeOptions, features: Features) -> (r: bool)
    ensures
        r == encodable(image@, *options, features),
{
    match options {
        EncodeOptions::Png(_) | EncodeOptions::Gif(_) | EncodeOptions::Bmp => is_sound(image),
        EncodeOptions::Tiff(o) => match o.compression {
            TiffCompression::Jpeg => true,
            _ => is_sound(image),
        },
        EncodeOptions::Avif(_) => !features.avif || (is_sound(image) && image.width > 0
            && image.height > 0),
        _ => true,
    }
}

} // verus!
