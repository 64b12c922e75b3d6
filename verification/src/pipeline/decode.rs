//! Decoding of sources of any format: by path, through the cache, cut as asked for.
use crate::pipeline::bundled::{
    finish_jpeg_decode, finish_pdf, finish_webp_decode, jpeg_image, pdf_image, pdf_job, plan_pdf,
    webp_image, JpegFailure, JpegPixels, PdfFailure, PdfJob, WebpFailure, WebpPixels,
};
use crate::pipeline::cache::{cache_found, cache_put, CacheModel, DecodedImageCache};
use crate::pipeline::codecs::{decode_via_image, load_image, loaded};
use crate::pipeline::encode::{held, kept, written_format, Features};
use crate::pipeline::format::{
    cacheable, cacheable_full_decode, detect_format, format_of, SourceFormat,
};
use crate::pipeline::image::{
    apply_post_decode_ops, can_apply_post_decode_ops, centered_square, image_result,
    post_decodable, post_decoded, square_region, DecodedImage, ImageModel,
};
use crate::pipeline::jxl_source::{
    decode_jxl_from_bytes, decode_jxl_info_from_bytes, decode_jxl_region_from_bytes, info_result,
    jxl_decoded, jxl_info, JxlHeader, JxlPlane,
};
use crate::pipeline::svg::{decode_svg, svg_rendered, SvgJob};
use crate::pipeline::tiff::{decode_tiff_page, tiff_page};
use crate::request::{
    failed, CrabMagickError, EncodeOptions, ErrorModel, ImageInfo, RequestedRegion,
};
use vstd::prelude::*;

verus! {

/// The decoders that the pipeline is bundled with, and what the build has.
pub struct Codecs<H, R, K, J, W, S, P> {
    /// Reads the header of a JPEG XL picture.
    pub jxl_header: H,
    /// Renders a JPEG XL picture, or a region of it, into planes.
    pub jxl_render: R,
    /// Turns a sample, given by its bits, into a byte.
    pub to_byte: K,
    /// Decodes JPEG.
    pub jpeg: J,
    /// Decodes WebP.
    pub webp: W,
    /// Renders SVG.
    pub svg: S,
    /// Renders a page of a PDF document.
    pub pdf: P,
    /// What the build has.
    pub features: Features,
}

/// The decoders take whatever they are handed.
pub open spec fn ready<
    H: Fn(&[u8]) -> Result<JxlHeader, String>,
    R: Fn(&[u8], Option<(u32, u32, u32, u32)>) -> Result<Vec<JxlPlane>, String>,
    K: Fn(u32) -> u8,
    J: Fn(&[u8]) -> Result<JpegPixels, JpegFailure>,
    W: Fn(&[u8]) -> Result<WebpPixels, WebpFailure>,
    S: Fn(&resvg::usvg::Tree, &SvgJob) -> Option<Vec<u8>>,
    P: Fn(&[u8], &PdfJob) -> Result<(Vec<u8>, u32, u32), PdfFailure>,
>(c: Codecs<H, R, K, J, W, S, P>) -> bool {
    &&& forall|b: &[u8]| #[trigger] call_requires(c.jxl_header, (b,))
    &&& forall|b: &[u8], region: Option<(u32, u32, u32, u32)>| #[trigger]
        call_requires(c.jxl_render, (b, region))
    &&& forall|v: u32| #[trigger] call_requires(c.to_byte, (v,))
    &&& forall|b: &[u8]| #[trigger] call_requires(c.jpeg, (b,))
    &&& forall|b: &[u8]| #[trigger] call_requires(c.webp, (b,))
    &&& forall|tree: &resvg::usvg::Tree, job: &SvgJob| #[trigger]
        call_requires(c.svg, (tree, job))
    &&& forall|b: &[u8], job: &PdfJob| #[trigger] call_requires(c.pdf, (b, job))
}

// ---- cutting ----
/// A decoded image cut as asked for; an error where its bytes do not cover the cut.
pub open spec fn cut(
    m: Result<ImageModel, ErrorModel>,
    region: Option<(u32, u32, u32, u32)>,
    square: bool,
) -> Result<ImageModel, ErrorModel> {
    match m {
        Err(error) => Err(error),
        Ok(m) => if post_decodable(m, region, square) {
            post_decoded(m, region, square)
        } else {
            Err(
                ErrorModel::DecodeMalformed("decoded pixels do not cover the requested region"@),
            )
        },
    }
}

/// Cuts a decoded image as asked for.
pub fn cut_image(
    image: Result<DecodedImage, CrabMagickError>,
    region: Option<(u32, u32, u32, u32)>,
    square: bool,
) -> (r: Result<DecodedImage, CrabMagickError>)
    ensures
        image_result(r) == cut(image_result(image), region, square),
{
    match image {
        Err(error) => Err(error),
        Ok(image) => {
            if can_apply_post_decode_ops(&image, region, square) {
                apply_post_decode_ops(image, region, square)
            } else {
                Err(
                    CrabMagickError::decode_malformed(
                        "decoded pixels do not cover the requested region",
                    ),
                )
            }
        },
    }
}

// ---- formats ----
/// The first image, or the second one where there is no first.
pub open spec fn first_image(
    a: Result<ImageModel, ErrorModel>,
    b: Result<ImageModel, ErrorModel>,
) -> Result<ImageModel, ErrorModel> {
    if a is Ok {
        a
    } else {
        b
    }
}

/// The image is what the general decoder makes of the source.
pub open spec fn general_image(bytes: Seq<u8>) -> Result<ImageModel, ErrorModel> {
    load_image(loaded(bytes), "generic image decode failed: "@)
}

/// The outcome for a JPEG XL source: a region, or the centered square, or the whole.
pub open spec fn jxl_source<
    H: Fn(&[u8]) -> Result<JxlHeader, String>,
    R: Fn(&[u8], Option<(u32, u32, u32, u32)>) -> Result<Vec<JxlPlane>, String>,
    K: Fn(u32) -> u8,
>(
    open: H,
    render: R,
    kernel: K,
    bytes: &[u8],
    region: Option<(u32, u32, u32, u32)>,
    square: bool,
    r: Result<ImageModel, ErrorModel>,
) -> bool {
    if region is Some || !square {
        jxl_decoded(open, render, kernel, bytes, region, r)
    } else {
        exists|info: Result<ImageInfo, ErrorModel>|
            {
                &&& #[trigger] jxl_info(open, bytes, info)
                &&& match info {
                    Err(error) => r == Err::<ImageModel, ErrorModel>(error),
                    Ok(info) => {
                        let s = square_region(info.width, info.height);
                        jxl_decoded(
                            open,
                            render,
                            kernel,
                            bytes,
                            Some((s.left, s.top, s.width, s.height)),
                            r,
                        )
                    },
                }
            }
    }
}

/// Decodes a JPEG XL source.
fn decode_jxl_source<
    H: Fn(&[u8]) -> Result<JxlHeader, String>,
    R: Fn(&[u8], Option<(u32, u32, u32, u32)>) -> Result<Vec<JxlPlane>, String>,
    K: Fn(u32) -> u8,
>(
    open: &H,
    render: &R,
    kernel: &K,
    bytes: &[u8],
    region: Option<(u32, u32, u32, u32)>,
    square: bool,
) -> (r: Result<DecodedImage, CrabMagickError>)
    requires
        forall|b: &[u8]| #[trigger] call_requires(*open, (b,)),
        forall|b: &[u8], region: Option<(u32, u32, u32, u32)>| #[trigger]
            call_requires(*render, (b, region)),
        forall|v: u32| #[trigger] call_requires(*kernel, (v,)),
    ensures
        jxl_source(*open, *render, *kernel, bytes, region, square, image_result(r)),
{
    match region {
        Some((x, y, w, h)) => decode_jxl_region_from_bytes(
            bytes,
            x,
            y,
            w,
            h,
            open,
            render,
            kernel,
        ),
        None => {
            if !square {
                return decode_jxl_from_bytes(bytes, open, render, kernel);
            }
            let info: Result<ImageInfo, CrabMagickError> = decode_jxl_info_from_bytes(bytes, open);
            let ghost shown = info_result(info);
            assert(jxl_info(*open, bytes, shown));
            match info {
                Err(error) => Err(error),
                Ok(info) => {
                    let s: RequestedRegion = centered_square(info.width, info.height);
                    decode_jxl_region_from_bytes(
                        bytes,
                        s.left,
                        s.top,
                        s.width,
                        s.height,
                        open,
                        render,
                        kernel,
                    )
                },
            }
        },
    }
}

/// The outcome for a JPEG source: the bundled decoder's image, else the general decoder's.
pub open spec fn jpeg_source<J: Fn(&[u8]) -> Result<JpegPixels, JpegFailure>>(
    decoder: J,
    bytes: &[u8],
    r: Result<ImageModel, ErrorModel>,
) -> bool {
    exists|reply: Result<JpegPixels, JpegFailure>| #[trigger]
        call_ensures(decoder, (bytes,), reply) && r == first_image(
            jpeg_image(reply),
            general_image(bytes@),
        )
}

fn decode_jpeg_source<J: Fn(&[u8]) -> Result<JpegPixels, JpegFailure>>(
    decoder: &J,
    bytes: &[u8],
) -> (r: Result<DecodedImage, CrabMagickError>)
    requires
        forall|b: &[u8]| #[trigger] call_requires(*decoder, (b,)),
    ensures
        jpeg_source(*decoder, bytes, image_result(r)),
{
    let reply: Result<JpegPixels, JpegFailure> = decoder(bytes);
    let ghost shown = reply;
    assert(call_ensures(*decoder, (bytes,), shown));
    match finish_jpeg_decode(reply) {
        Ok(image) => Ok(image),
        Err(_) => decode_via_image(bytes),
    }
}

/// The outcome for a WebP source.
pub open spec fn webp_source<W: Fn(&[u8]) -> Result<WebpPixels, WebpFailure>>(
    decoder: W,
    bytes: &[u8],
    r: Result<ImageModel, ErrorModel>,
) -> bool {
    exists|reply: Result<WebpPixels, WebpFailure>| #[trigger]
        call_ensures(decoder, (bytes,), reply) && r == webp_image(reply)
}

fn decode_webp_source<W: Fn(&[u8]) -> Result<WebpPixels, WebpFailure>>(
    decoder: &W,
    bytes: &[u8],
) -> (r: Result<DecodedImage, CrabMagickError>)
    requires
        forall|b: &[u8]| #[trigger] call_requires(*decoder, (b,)),
    ensures
        webp_source(*decoder, bytes, image_result(r)),
{
    let reply: Result<WebpPixels, WebpFailure> = decoder(bytes);
    let ghost shown = reply;
    assert(call_ensures(*decoder, (bytes,), shown));
    finish_webp_decode(reply)
}

/// The outcome for a page of a PDF source.
pub open spec fn pdf_source<P: Fn(&[u8], &PdfJob) -> Result<(Vec<u8>, u32, u32), PdfFailure>>(
    renderer: P,
    bytes: &[u8],
    page: u32,
    size: (u32, u32),
    r: Result<ImageModel, ErrorModel>,
) -> bool {
    exists|reply: Result<(Vec<u8>, u32, u32), PdfFailure>| #[trigger]
        call_ensures(renderer, (bytes, &pdf_job(page, size.0, size.1)), reply) && r == pdf_image(
            reply,
        )
}

pub fn decode_pdf_page<P: Fn(&[u8], &PdfJob) -> Result<(Vec<u8>, u32, u32), PdfFailure>>(
    renderer: &P,
    bytes: &[u8],
    page: u32,
    out_w: u32,
    out_h: u32,
) -> (r: Result<DecodedImage, CrabMagickError>)
    requires
        forall|b: &[u8], job: &PdfJob| #[trigger] call_requires(*renderer, (b, job)),
    ensures
        pdf_source(*renderer, bytes, page, (out_w, out_h), image_result(r)),
{
    let job: PdfJob = plan_pdf(page, out_w, out_h);
    let reply: Result<(Vec<u8>, u32, u32), PdfFailure> = renderer(bytes, &job);
    let ghost shown = reply;
    assert(call_ensures(*renderer, (bytes, &pdf_job(page, out_w, out_h)), shown));
    finish_pdf(reply)
}

/// The error for a PDF source in a build without PDF.
pub open spec fn no_pdf() -> ErrorModel {
    ErrorModel::DecodeUnsupportedFormat(
        "PDF decoding is unavailable in this build; enable the `pdf` feature"@,
    )
}

/// The error for an AVIF source in a build without AVIF.
pub open spec fn no_avif() -> ErrorModel {
    ErrorModel::DecodeUnsupportedFormat(
        "AVIF decoding is unavailable in this build; enable the `avif` feature"@,
    )
}

/// The error for a source that is of no known format.
pub open spec fn no_format() -> ErrorModel {
    ErrorModel::DecodeUnsupportedFormat(
        "file signature did not match any supported image format"@,
    )
}

/// The size to render to; open where none is asked for.
pub open spec fn size_or_open(render_size: Option<(u32, u32)>) -> (u32, u32) {
    match render_size {
        Some(size) => size,
        None => (0, 0),
    }
}

/// The outcome for a source before it is cut. JPEG XL sources are cut by their decoder.
pub open spec fn source_outcome<
    H: Fn(&[u8]) -> Result<JxlHeader, String>,
    R: Fn(&[u8], Option<(u32, u32, u32, u32)>) -> Result<Vec<JxlPlane>, String>,
    K: Fn(u32) -> u8,
    J: Fn(&[u8]) -> Result<JpegPixels, JpegFailure>,
    W: Fn(&[u8]) -> Result<WebpPixels, WebpFailure>,
    S: Fn(&resvg::usvg::Tree, &SvgJob) -> Option<Vec<u8>>,
    P: Fn(&[u8], &PdfJob) -> Result<(Vec<u8>, u32, u32), PdfFailure>,
>(
    c: Codecs<H, R, K, J, W, S, P>,
    bytes: &[u8],
    page: u32,
    render_size: Option<(u32, u32)>,
    m: Result<ImageModel, ErrorModel>,
) -> bool {
    let size = size_or_open(render_size);
    match format_of(bytes@) {
        SourceFormat::Jpeg => jpeg_source(c.jpeg, bytes, m),
        SourceFormat::Webp => webp_source(c.webp, bytes, m),
        SourceFormat::Tiff => m == tiff_page(bytes@, page as nat),
        SourceFormat::Svg => svg_rendered(c.svg, bytes@, size.0, size.1, m),
        SourceFormat::Pdf => if c.features.pdf {
            pdf_source(c.pdf, bytes, page, size, m)
        } else {
            m == Err::<ImageModel, ErrorModel>(no_pdf())
        },
        SourceFormat::Avif => if c.features.avif {
            m == general_image(bytes@)
        } else {
            m == Err::<ImageModel, ErrorModel>(no_avif())
        },
        SourceFormat::Unknown => m == Err::<ImageModel, ErrorModel>(no_format()),
        _ => m == general_image(bytes@),
    }
}

/// The outcome for a source, cut as asked for.
pub open spec fn source_decoded<
    H: Fn(&[u8]) -> Result<JxlHeader, String>,
    R: Fn(&[u8], Option<(u32, u32, u32, u32)>) -> Result<Vec<JxlPlane>, String>,
    K: Fn(u32) -> u8,
    J: Fn(&[u8]) -> Result<JpegPixels, JpegFailure>,
    W: Fn(&[u8]) -> Result<WebpPixels, WebpFailure>,
    S: Fn(&resvg::usvg::Tree, &SvgJob) -> Option<Vec<u8>>,
    P: Fn(&[u8], &PdfJob) -> Result<(Vec<u8>, u32, u32), PdfFailure>,
>(
    c: Codecs<H, R, K, J, W, S, P>,
    bytes: &[u8],
    region: Option<(u32, u32, u32, u32)>,
    square: bool,
    page: u32,
    render_size: Option<(u32, u32)>,
    r: Result<ImageModel, ErrorModel>,
) -> bool {
    if format_of(bytes@) is Jxl {
        jxl_source(c.jxl_header, c.jxl_render, c.to_byte, bytes, region, square, r)
    } else {
        exists|m: Result<ImageModel, ErrorModel>|
            #[trigger] source_outcome(c, bytes, page, render_size, m) && r == cut(
                m,
                region,
                square,
            )
    }
}

/// Decodes a source that is not JPEG XL.
fn decode_source<
    H: Fn(&[u8]) -> Result<JxlHeader, String>,
    R: Fn(&[u8], Option<(u32, u32, u32, u32)>) -> Result<Vec<JxlPlane>, String>,
    K: Fn(u32) -> u8,
    J: Fn(&[u8]) -> Result<JpegPixels, JpegFailure>,
    W: Fn(&[u8]) -> Result<WebpPixels, WebpFailure>,
    S: Fn(&resvg::usvg::Tree, &SvgJob) -> Option<Vec<u8>>,
    P: Fn(&[u8], &PdfJob) -> Result<(Vec<u8>, u32, u32), PdfFailure>,
>(
    codecs: &Codecs<H, R, K, J, W, S, P>,
    bytes: &[u8],
    format: SourceFormat,
    page: u32,
    render_size: Option<(u32, u32)>,
) -> (r: Result<DecodedImage, CrabMagickError>)
    requires
        ready(*codecs),
        format == format_of(bytes@),
        !(format is Jxl),
    ensures
        source_outcome(*codecs, bytes, page, render_size, image_result(r)),
{
    let (out_w, out_h): (u32, u32) = match render_size {
        Some(size) => size,
        None => (0, 0),
    };
    match format {
        SourceFormat::Jpeg => decode_jpeg_source(&codecs.jpeg, bytes),
        SourceFormat::Webp => decode_webp_source(&codecs.webp, bytes),
        SourceFormat::Tiff => decode_tiff_page(bytes, page),
        SourceFormat::Svg => decode_svg(bytes, out_w, out_h, &codecs.svg),
        SourceFormat::Pdf => if codecs.features.pdf {
            decode_pdf_page(&codecs.pdf, bytes, page, out_w, out_h)
        } else {
            Err(
                CrabMagickError::decode_unsupported_format(
                    "PDF decoding is unavailable in this build; enable the `pdf` feature",
                ),
            )
        },
        SourceFormat::Avif => if codecs.features.avif {
            decode_via_image(bytes)
        } else {
            Err(
                CrabMagickError::decode_unsupported_format(
                    "AVIF decoding is unavailable in this build; enable the `avif` feature",
                ),
            )
        },
        SourceFormat::Unknown => Err(
            CrabMagickError::decode_unsupported_format(
                "file signature did not match any supported image format",
            ),
        ),
        _ => decode_via_image(bytes),
    }
}

/// Decodes a source of any format and cuts it as asked for.
pub fn decode_bytes_with_options<
    H: Fn(&[u8]) -> Result<JxlHeader, String>,
    R: Fn(&[u8], Option<(u32, u32, u32, u32)>) -> Result<Vec<JxlPlane>, String>,
    K: Fn(u32) -> u8,
    J: Fn(&[u8]) -> Result<JpegPixels, JpegFailure>,
    W: Fn(&[u8]) -> Result<WebpPixels, WebpFailure>,
    S: Fn(&resvg::usvg::Tree, &SvgJob) -> Option<Vec<u8>>,
    P: Fn(&[u8], &PdfJob) -> Result<(Vec<u8>, u32, u32), PdfFailure>,
>(
    bytes: &[u8],
    region: Option<(u32, u32, u32, u32)>,
    square: bool,
    page: u32,
    render_size: Option<(u32, u32)>,
    codecs: &Codecs<H, R, K, J, W, S, P>,
) -> (r: Result<DecodedImage, CrabMagickError>)
    requires
        ready(*codecs),
    ensures
        source_decoded(*codecs, bytes, region, square, page, render_size, image_result(r)),
{
    let format: SourceFormat = detect_format(bytes);
    match format {
        SourceFormat::Jxl => decode_jxl_source(
            &codecs.jxl_header,
            &codecs.jxl_render,
            &codecs.to_byte,
            bytes,
            region,
            square,
        ),
        _ => {
            let whole: Result<DecodedImage, CrabMagickError> = decode_source(
                codecs,
                bytes,
                format,
                page,
                render_size,
            );
            let ghost m = image_result(whole);
            assert(source_outcome(*codecs, bytes, page, render_size, m));
            cut_image(whole, region, square)
        },
    }
}

/// A lossless file is decoded to the image that it was written from.
pub proof fn lemma_decode_written<
    H: Fn(&[u8]) -> Result<JxlHeader, String>,
    R: Fn(&[u8], Option<(u32, u32, u32, u32)>) -> Result<Vec<JxlPlane>, String>,
    K: Fn(u32) -> u8,
    J: Fn(&[u8]) -> Result<JpegPixels, JpegFailure>,
    W: Fn(&[u8]) -> Result<WebpPixels, WebpFailure>,
    S: Fn(&resvg::usvg::Tree, &SvgJob) -> Option<Vec<u8>>,
    P: Fn(&[u8], &PdfJob) -> Result<(Vec<u8>, u32, u32), PdfFailure>,
>(
    c: Codecs<H, R, K, J, W, S, P>,
    bytes: &[u8],
    options: EncodeOptions,
    render_size: Option<(u32, u32)>,
    m: ImageModel,
    r: Result<ImageModel, ErrorModel>,
)
    requires
        kept(m, options),
        written_format(options) == Some(format_of(bytes@)),
        held(bytes@, options) == Ok::<ImageModel, ErrorModel>(m),
        source_decoded(c, bytes, None, false, 0, render_size, r),
    ensures
        r == Ok::<ImageModel, ErrorModel>(m),
{
}

// ---- by path ----
/// The bytes of a file, or why it cannot be read.
pub open spec fn read_outcome<T: Fn(&str) -> Result<Vec<u8>, String>>(
    read: T,
    path: &str,
    reply: Result<Vec<u8>, String>,
) -> bool {
    call_ensures(read, (path,), reply)
}

/// The cache is asked, and has the image.
pub open spec fn cache_answers(
    cache: CacheModel,
    path: Seq<char>,
    region: Option<(u32, u32, u32, u32)>,
    square: bool,
    page: u32,
) -> bool {
    region is None && !square && cache_found(cache, (path, page)) is Some
}

/// The cache after an image was decoded: whole images of formats that are not rendered to size
/// are kept.
pub open spec fn cache_after(
    cache: CacheModel,
    path: Seq<char>,
    region: Option<(u32, u32, u32, u32)>,
    square: bool,
    page: u32,
    format: SourceFormat,
    r: Result<ImageModel, ErrorModel>,
) -> CacheModel {
    if r is Ok && region is None && !square && cacheable(format) {
        cache_put(
            cache,
            (path, page),
            (r->Ok_0.pixels, r->Ok_0.width, r->Ok_0.height),
        )
    } else {
        cache
    }
}

/// The outcome for a source by its path when the cache does not answer.
pub open spec fn path_decoded<
    T: Fn(&str) -> Result<Vec<u8>, String>,
    H: Fn(&[u8]) -> Result<JxlHeader, String>,
    R: Fn(&[u8], Option<(u32, u32, u32, u32)>) -> Result<Vec<JxlPlane>, String>,
    K: Fn(u32) -> u8,
    J: Fn(&[u8]) -> Result<JpegPixels, JpegFailure>,
    W: Fn(&[u8]) -> Result<WebpPixels, WebpFailure>,
    S: Fn(&resvg::usvg::Tree, &SvgJob) -> Option<Vec<u8>>,
    P: Fn(&[u8], &PdfJob) -> Result<(Vec<u8>, u32, u32), PdfFailure>,
>(
    read: T,
    c: Codecs<H, R, K, J, W, S, P>,
    path: &str,
    region: Option<(u32, u32, u32, u32)>,
    square: bool,
    page: u32,
    render_size: Option<(u32, u32)>,
    before: CacheModel,
    after: CacheModel,
    r: Result<ImageModel, ErrorModel>,
) -> bool {
    exists|reply: Result<Vec<u8>, String>|
        {
            &&& #[trigger] read_outcome(read, path, reply)
            &&& match reply {
                Err(why) => r == Err::<ImageModel, ErrorModel>(ErrorModel::DecodeIo(why@)) && after
                    == before,
                Ok(v) => bytes_decoded(
                    c,
                    v@,
                    path@,
                    region,
                    square,
                    page,
                    render_size,
                    before,
                    after,
                    r,
                ),
            }
        }
}

/// The outcome for the bytes of a source, and what becomes of the cache.
pub open spec fn bytes_decoded<
    H: Fn(&[u8]) -> Result<JxlHeader, String>,
    R: Fn(&[u8], Option<(u32, u32, u32, u32)>) -> Result<Vec<JxlPlane>, String>,
    K: Fn(u32) -> u8,
    J: Fn(&[u8]) -> Result<JpegPixels, JpegFailure>,
    W: Fn(&[u8]) -> Result<WebpPixels, WebpFailure>,
    S: Fn(&resvg::usvg::Tree, &SvgJob) -> Option<Vec<u8>>,
    P: Fn(&[u8], &PdfJob) -> Result<(Vec<u8>, u32, u32), PdfFailure>,
>(
    c: Codecs<H, R, K, J, W, S, P>,
    v: Seq<u8>,
    path: Seq<char>,
    region: Option<(u32, u32, u32, u32)>,
    square: bool,
    page: u32,
    render_size: Option<(u32, u32)>,
    before: CacheModel,
    after: CacheModel,
    r: Result<ImageModel, ErrorModel>,
) -> bool {
    exists|bytes: &[u8]|
        {
            &&& bytes@ == v
            &&& #[trigger] source_decoded(c, bytes, region, square, page, render_size, r)
            &&& after == cache_after(before, path, region, square, page, format_of(v), r)
        }
}

/// Decodes a source by its path, through the cache, and cuts it as asked for.
pub fn decode_any_with_options<
    T: Fn(&str) -> Result<Vec<u8>, String>,
    H: Fn(&[u8]) -> Result<JxlHeader, String>,
    R: Fn(&[u8], Option<(u32, u32, u32, u32)>) -> Result<Vec<JxlPlane>, String>,
    K: Fn(u32) -> u8,
    J: Fn(&[u8]) -> Result<JpegPixels, JpegFailure>,
    W: Fn(&[u8]) -> Result<WebpPixels, WebpFailure>,
    S: Fn(&resvg::usvg::Tree, &SvgJob) -> Option<Vec<u8>>,
    P: Fn(&[u8], &PdfJob) -> Result<(Vec<u8>, u32, u32), PdfFailure>,
>(
    path: &str,
    region: Option<(u32, u32, u32, u32)>,
    square: bool,
    page: u32,
    render_size: Option<(u32, u32)>,
    cache: &mut DecodedImageCache,
    read: &T,
    codecs: &Codecs<H, R, K, J, W, S, P>,
) -> (r: Result<DecodedImage, CrabMagickError>)
    requires
        ready(*codecs),
        call_requires(*read, (path,)),
    ensures
        cache_answers(old(cache)@, path@, region, square, page) ==> {
            &&& r is Ok
            &&& Some(r->Ok_0@) == cache_found(old(cache)@, (path@, page))
            &&& final(cache)@ == crate::pipeline::cache::cache_touched(
                old(cache)@,
                (path@, page),
            )
        },
        !cache_answers(old(cache)@, path@, region, square, page) ==> path_decoded(
            *read,
            *codecs,
            path,
            region,
            square,
            page,
            render_size,
            old(cache)@,
            final(cache)@,
            image_result(r),
        ),
{
    let ghost before = cache@;
    if region.is_none() && !square {
        match cache.get(path, page) {
            Some(image) => {
                return Ok(image);
            },
            None => {},
        }
    }
    assert(cache@ == before);
    let reply: Result<Vec<u8>, String> = read(path);
    let ghost shown = reply;
    assert(read_outcome(*read, path, shown));
    match reply {
        Err(why) => Err(CrabMagickError::DecodeIo(why)),
        Ok(v) => {
            let bytes: &[u8] = v.as_slice();
            let r: Result<DecodedImage, CrabMagickError> = decode_bytes_with_options(
                bytes,
                region,
                square,
                page,
                render_size,
                codecs,
            );
            let format: SourceFormat = detect_format(bytes);
            match &r {
                Ok(image) => {
                    if cacheable_full_decode(format, region, square) {
                        cache.put(path, page, image);
                    }
                },
                Err(_) => {},
            }
            assert(source_decoded(
                *codecs,
                bytes,
                region,
                square,
                page,
                render_size,
                image_result(r),
            ));
            assert(bytes_decoded(
                *codecs,
                v@,
                path@,
                region,
                square,
                page,
                render_size,
                before,
                cache@,
                image_result(r),
            ));
            r
        },
    }
}

/// Decodes a source by its path at its own size.
pub fn decode_any<
    T: Fn(&str) -> Result<Vec<u8>, String>,
    H: Fn(&[u8]) -> Result<JxlHeader, String>,
    R: Fn(&[u8], Option<(u32, u32, u32, u32)>) -> Result<Vec<JxlPlane>, String>,
    K: Fn(u32) -> u8,
    J: Fn(&[u8]) -> Result<JpegPixels, JpegFailure>,
    W: Fn(&[u8]) -> Result<WebpPixels, WebpFailure>,
    S: Fn(&resvg::usvg::Tree, &SvgJob) -> Option<Vec<u8>>,
    P: Fn(&[u8], &PdfJob) -> Result<(Vec<u8>, u32, u32), PdfFailure>,
>(
    path: &str,
    region: Option<(u32, u32, u32, u32)>,
    square: bool,
    cache: &mut DecodedImageCache,
    read: &T,
    codecs: &Codecs<H, R, K, J, W, S, P>,
) -> (r: Result<DecodedImage, CrabMagickError>)
    requires
        ready(*codecs),
        call_requires(*read, (path,)),
    ensures
        cache_answers(old(cache)@, path@, region, square, 0) ==> {
            &&& r is Ok
            &&& Some(r->Ok_0@) == cache_found(old(cache)@, (path@, 0))
            &&& final(cache)@ == crate::pipeline::cache::cache_touched(old(cache)@, (path@, 0))
        },
        !cache_answers(old(cache)@, path@, region, square, 0) ==> path_decoded(
            *read,
            *codecs,
            path,
            region,
            square,
            0,
            None,
            old(cache)@,
            final(cache)@,
            image_result(r),
        ),
{
    decode_any_with_options(path, region, square, 0, None, cache, read, codecs)
}

} // verus!
