//! Processing of one image: decode, resize, rotate, encode.
use crate::jxl::jpeg_data::JpegData;
use crate::jxl::jpeg_encode::{
    can_recode, encode_jpeg_to_jxl_container, jpeg_ok, recodes_into, Coded, Container, RecodePlan,
    SideData,
};
use crate::jxl::jpeg_recode::RecodeError;
use crate::pipeline::bundled::{
    JpegFailure, JpegPixels, PdfFailure, PdfJob, WebpFailure, WebpPixels,
};
use crate::pipeline::cache::{
    cache_found, cache_new, cache_touched, init_decoded_image_cache, limit_of, CacheModel,
    DecodedImageCache,
};
use crate::pipeline::decode::{
    cache_answers, decode_any_with_options, path_decoded, read_outcome, ready, Codecs,
};
use crate::pipeline::encode::{
    can_encode, encodable, encode, encoded, Features, JpegEncodeFailure, JpegPlan,
};
use crate::pipeline::format::{detect_format, format_of, SourceFormat};
use crate::pipeline::image::{
    can_rotate, image_result, rotatable, rotate_rgb, rotated, DecodedImage, ImageModel,
};
use crate::pipeline::info::{decode_any_info, path_info};
use crate::pipeline::jxl_options::{bytes_result, JxlPlan};
use crate::pipeline::jxl_source::{info_result, JxlHeader, JxlPlane};
use crate::pipeline::resize::{can_resize, resizable, resize_rgb, resized};
use crate::pipeline::svg::SvgJob;
use crate::request::{
    failed, malformed, CrabMagickError, ErrorModel, ImageInfo, OutputFormat, ProcessRequest, RequestedRegion,
};
use vstd::prelude::*;

verus! {

/// The encoders that the pipeline is bundled with.
pub struct Encoders<D, O, X> {
    /// The JPEG XL distance, by its bits, that a quality stands for.
    pub distance: D,
    /// Encodes JPEG.
    pub jpeg: O,
    /// Encodes JPEG XL.
    pub jxl: X,
}

/// The encoders take whatever they are handed.
pub open spec fn encoders_ready<
    D: Fn(u8) -> u32,
    O: Fn(&JpegPlan, &[u8], u32, u32) -> Result<Vec<u8>, JpegEncodeFailure>,
    X: Fn(&JxlPlan, &[u8], u32, u32) -> Result<Vec<u8>, String>,
>(e: Encoders<D, O, X>) -> bool {
    &&& forall|q: u8| 1 <= q <= 100 ==> #[trigger] call_requires(e.distance, (q,))
    &&& forall|plan: &JpegPlan, pixels: &[u8], w: u32, h: u32| #[trigger]
        call_requires(e.jpeg, (plan, pixels, w, h))
    &&& forall|plan: &JxlPlan, pixels: &[u8], w: u32, h: u32| #[trigger]
        call_requires(e.jxl, (plan, pixels, w, h))
}

// ---- transforming ----
/// The error for an image that a step cannot take.
pub open spec fn unfit() -> ErrorModel {
    ErrorModel::DecodeMalformed("decoded pixels do not match the image dimensions"@)
}

fn unfit_error() -> (r: CrabMagickError)
    ensures
        r@ == unfit(),
{
    CrabMagickError::decode_malformed("decoded pixels do not match the image dimensions")
}

/// An image resized as asked for, if it is.
pub open spec fn sized(m: ImageModel, size: Option<(u32, u32)>) -> Result<
    ImageModel,
    ErrorModel,
> {
    match size {
        None => Ok(m),
        Some(size) => if resizable(m, size.0, size.1) {
            Ok(resized(m, size.0, size.1))
        } else {
            Err(unfit())
        },
    }
}

/// An image rotated as asked for.
pub open spec fn oriented(m: ImageModel, rotation: u16) -> Result<ImageModel, ErrorModel> {
    if rotatable(m, rotation as int) {
        Ok(rotated(m, rotation as int))
    } else {
        Err(unfit())
    }
}

/// An image resized, then rotated.
pub open spec fn transformed(m: ImageModel, request: ProcessRequest) -> Result<
    ImageModel,
    ErrorModel,
> {
    match sized(m, request.render_size()) {
        Err(error) => Err(error),
        Ok(m) => oriented(m, request.rotation),
    }
}

/// Resizes, then rotates an image as asked for.
pub fn transform_image(image: DecodedImage, request: &ProcessRequest) -> (r: Result<
    DecodedImage,
    CrabMagickError,
>)
    ensures
        image_result(r) == transformed(image@, *request),
{
    let image: DecodedImage = match request.requested_render_size() {
        None => image,
        Some((width, height)) => {
            if !can_resize(&image, width, height) {
                return Err(unfit_error());
            }
            resize_rgb(image, width, height)
        },
    };
    if !can_rotate(&image, request.rotation) {
        return Err(unfit_error());
    }
    Ok(rotate_rgb(image, request.rotation))
}

// ---- encoding ----
/// The outcome of transforming and encoding a decoded image.
pub open spec fn finished<
    D: Fn(u8) -> u32,
    O: Fn(&JpegPlan, &[u8], u32, u32) -> Result<Vec<u8>, JpegEncodeFailure>,
    X: Fn(&JxlPlan, &[u8], u32, u32) -> Result<Vec<u8>, String>,
>(
    features: Features,
    e: Encoders<D, O, X>,
    m: Result<ImageModel, ErrorModel>,
    request: ProcessRequest,
    r: Result<Seq<u8>, ErrorModel>,
) -> bool {
    match m {
        Err(error) => r == Err::<Seq<u8>, ErrorModel>(error),
        Ok(m) => match transformed(m, request) {
            Err(error) => r == Err::<Seq<u8>, ErrorModel>(error),
            Ok(t) => if encodable(t, request.encode, features) {
                encoded(features, e.distance, e.jpeg, e.jxl, t, request.encode, r)
            } else {
                r == Err::<Seq<u8>, ErrorModel>(unfit())
            },
        },
    }
}

/// Transforms and encodes a decoded image.
pub fn finish_image<
    D: Fn(u8) -> u32,
    O: Fn(&JpegPlan, &[u8], u32, u32) -> Result<Vec<u8>, JpegEncodeFailure>,
    X: Fn(&JxlPlan, &[u8], u32, u32) -> Result<Vec<u8>, String>,
>(
    image: Result<DecodedImage, CrabMagickError>,
    request: &ProcessRequest,
    features: Features,
    encoders: &Encoders<D, O, X>,
) -> (r: Result<Vec<u8>, CrabMagickError>)
    requires
        encoders_ready(*encoders),
    ensures
        finished(features, *encoders, image_result(image), *request, bytes_result(r)),
{
    match image {
        Err(error) => Err(error),
        Ok(image) => match transform_image(image, request) {
            Err(error) => Err(error),
            Ok(image) => {
                if !can_encode(&image, &request.encode, features) {
                    return Err(unfit_error());
                }
                encode(
                    image,
                    &request.encode,
                    features,
                    &encoders.distance,
                    &encoders.jpeg,
                    &encoders.jxl,
                )
            },
        },
    }
}

// ---- processing ----
/// The request leaves the image as it is and asks for JPEG XL.
pub open spec fn may_pass(request: ProcessRequest) -> bool {
    &&& request.region() is None
    &&& !request.square_region
    &&& request.output_width == 0
    &&& request.output_height == 0
    &&& request.rotation == 0
    &&& request.page == 0
    &&& crate::request::format_of(request.encode) is Jxl
}

/// The region of a request, by its edges and size.
pub open spec fn region_tuple(region: Option<RequestedRegion>) -> Option<(u32, u32, u32, u32)> {
    match region {
        Some(t) => Some((t.left, t.top, t.width, t.height)),
        None => None,
    }
}

/// The outcome of decoding, through the cache.
pub open spec fn decoded_through<
    T: Fn(&str) -> Result<Vec<u8>, String>,
    H: Fn(&[u8]) -> Result<JxlHeader, String>,
    R: Fn(&[u8], Option<(u32, u32, u32, u32)>) -> Result<Vec<JxlPlane>, String>,
    K: Fn(u32) -> u8,
    J: Fn(&[u8]) -> Result<JpegPixels, JpegFailure>,
    W: Fn(&[u8]) -> Result<WebpPixels, WebpFailure>,
    S: Fn(&resvg::usvg::Tree, &SvgJob) -> Option<Vec<u8>>,
    P: Fn(&[u8], &PdfJob) -> Result<(Vec<u8>, u32, u32), PdfFailure>,
>(
    read: T,
    c: Codecs<H, R, K, J, W, S, P>,
    path: &str,
    request: ProcessRequest,
    before: CacheModel,
    after: CacheModel,
    m: Result<ImageModel, ErrorModel>,
) -> bool {
    let region = region_tuple(request.region());
    let key = (path@, request.page);
    if cache_answers(before, path@, region, request.square_region, request.page) {
        m is Ok && Some(m->Ok_0) == cache_found(before, key) && after == cache_touched(before, key)
    } else {
        path_decoded(
            read,
            c,
            path,
            region,
            request.square_region,
            request.page,
            request.render_size(),
            before,
            after,
            m,
        )
    }
}

/// The outcome of decoding, transforming and encoding.
pub open spec fn worked<
    T: Fn(&str) -> Result<Vec<u8>, String>,
    H: Fn(&[u8]) -> Result<JxlHeader, String>,
    R: Fn(&[u8], Option<(u32, u32, u32, u32)>) -> Result<Vec<JxlPlane>, String>,
    K: Fn(u32) -> u8,
    J: Fn(&[u8]) -> Result<JpegPixels, JpegFailure>,
    W: Fn(&[u8]) -> Result<WebpPixels, WebpFailure>,
    S: Fn(&resvg::usvg::Tree, &SvgJob) -> Option<Vec<u8>>,
    P: Fn(&[u8], &PdfJob) -> Result<(Vec<u8>, u32, u32), PdfFailure>,
    D: Fn(u8) -> u32,
    O: Fn(&JpegPlan, &[u8], u32, u32) -> Result<Vec<u8>, JpegEncodeFailure>,
    X: Fn(&JxlPlan, &[u8], u32, u32) -> Result<Vec<u8>, String>,
>(
    read: T,
    c: Codecs<H, R, K, J, W, S, P>,
    e: Encoders<D, O, X>,
    path: &str,
    request: ProcessRequest,
    before: CacheModel,
    after: CacheModel,
    r: Result<Seq<u8>, ErrorModel>,
) -> bool {
    exists|m: Result<ImageModel, ErrorModel>| #[trigger]
        decoded_through(read, c, path, request, before, after, m) && finished(
            c.features,
            e,
            m,
            request,
            r,
        )
}

/// The outcome of processing. A JPEG XL source that is to stay as it is passes through.
pub open spec fn processed<
    T: Fn(&str) -> Result<Vec<u8>, String>,
    H: Fn(&[u8]) -> Result<JxlHeader, String>,
    R: Fn(&[u8], Option<(u32, u32, u32, u32)>) -> Result<Vec<JxlPlane>, String>,
    K: Fn(u32) -> u8,
    J: Fn(&[u8]) -> Result<JpegPixels, JpegFailure>,
    W: Fn(&[u8]) -> Result<WebpPixels, WebpFailure>,
    S: Fn(&resvg::usvg::Tree, &SvgJob) -> Option<Vec<u8>>,
    P: Fn(&[u8], &PdfJob) -> Result<(Vec<u8>, u32, u32), PdfFailure>,
    D: Fn(u8) -> u32,
    O: Fn(&JpegPlan, &[u8], u32, u32) -> Result<Vec<u8>, JpegEncodeFailure>,
    X: Fn(&JxlPlan, &[u8], u32, u32) -> Result<Vec<u8>, String>,
>(
    read: T,
    c: Codecs<H, R, K, J, W, S, P>,
    e: Encoders<D, O, X>,
    path: &str,
    request: ProcessRequest,
    before: CacheModel,
    after: CacheModel,
    r: Result<Seq<u8>, ErrorModel>,
) -> bool {
    if may_pass(request) {
        exists|reply: Result<Vec<u8>, String>|
            {
                &&& #[trigger] read_outcome(read, path, reply)
                &&& match reply {
                    Err(why) => r == Err::<Seq<u8>, ErrorModel>(ErrorModel::DecodeIo(why@))
                        && after == before,
                    Ok(v) => if format_of(v@) is Jxl {
                        r == Ok::<Seq<u8>, ErrorModel>(v@) && after == before
                    } else {
                        worked(read, c, e, path, request, before, after, r)
                    },
                }
            }
    } else {
        worked(read, c, e, path, request, before, after, r)
    }
}

/// Decodes, transforms and encodes.
fn work<
    T: Fn(&str) -> Result<Vec<u8>, String>,
    H: Fn(&[u8]) -> Result<JxlHeader, String>,
    R: Fn(&[u8], Option<(u32, u32, u32, u32)>) -> Result<Vec<JxlPlane>, String>,
    K: Fn(u32) -> u8,
    J: Fn(&[u8]) -> Result<JpegPixels, JpegFailure>,
    W: Fn(&[u8]) -> Result<WebpPixels, WebpFailure>,
    S: Fn(&resvg::usvg::Tree, &SvgJob) -> Option<Vec<u8>>,
    P: Fn(&[u8], &PdfJob) -> Result<(Vec<u8>, u32, u32), PdfFailure>,
    D: Fn(u8) -> u32,
    O: Fn(&JpegPlan, &[u8], u32, u32) -> Result<Vec<u8>, JpegEncodeFailure>,
    X: Fn(&JxlPlan, &[u8], u32, u32) -> Result<Vec<u8>, String>,
>(
    source_path: &str,
    request: &ProcessRequest,
    cache: &mut DecodedImageCache,
    read: &T,
    codecs: &Codecs<H, R, K, J, W, S, P>,
    encoders: &Encoders<D, O, X>,
) -> (r: Result<Vec<u8>, CrabMagickError>)
    requires
        ready(*codecs),
        encoders_ready(*encoders),
        call_requires(*read, (source_path,)),
    ensures
        worked(
            *read,
            *codecs,
            *encoders,
            source_path,
            *request,
            old(cache)@,
            final(cache)@,
            bytes_result(r),
        ),
{
    let ghost before = cache@;
    let region: Option<(u32, u32, u32, u32)> = match request.requested_region() {
        Some(region) => Some(region.as_tuple()),
        None => None,
    };
    let image: Result<DecodedImage, CrabMagickError> = decode_any_with_options(
        source_path,
        region,
        request.square_region,
        request.page,
        request.requested_render_size(),
        cache,
        read,
        codecs,
    );
    let ghost m = image_result(image);
    assert(decoded_through(*read, *codecs, source_path, *request, before, cache@, m));
    finish_image(image, request, codecs.features, encoders)
}

/// Processes one image: decodes it, cuts, resizes and rotates it as asked for, and encodes it. A
/// JPEG XL source that is to stay as it is passes through undecoded.
pub fn process_image<
    T: Fn(&str) -> Result<Vec<u8>, String>,
    H: Fn(&[u8]) -> Result<JxlHeader, String>,
    R: Fn(&[u8], Option<(u32, u32, u32, u32)>) -> Result<Vec<JxlPlane>, String>,
    K: Fn(u32) -> u8,
    J: Fn(&[u8]) -> Result<JpegPixels, JpegFailure>,
    W: Fn(&[u8]) -> Result<WebpPixels, WebpFailure>,
    S: Fn(&resvg::usvg::Tree, &SvgJob) -> Option<Vec<u8>>,
    P: Fn(&[u8], &PdfJob) -> Result<(Vec<u8>, u32, u32), PdfFailure>,
    D: Fn(u8) -> u32,
    O: Fn(&JpegPlan, &[u8], u32, u32) -> Result<Vec<u8>, JpegEncodeFailure>,
    X: Fn(&JxlPlan, &[u8], u32, u32) -> Result<Vec<u8>, String>,
>(
    source_path: &str,
    request: ProcessRequest,
    cache: &mut DecodedImageCache,
    read: &T,
    codecs: &Codecs<H, R, K, J, W, S, P>,
    encoders: &Encoders<D, O, X>,
) -> (r: Result<Vec<u8>, CrabMagickError>)
    requires
        ready(*codecs),
        encoders_ready(*encoders),
        call_requires(*read, (source_path,)),
    ensures
        processed(
            *read,
            *codecs,
            *encoders,
            source_path,
            request,
            old(cache)@,
            final(cache)@,
            bytes_result(r),
        ),
{
    let is_full: bool = request.requested_region().is_none() && !request.square_region;
    let has_resize: bool = request.output_width > 0 || request.output_height > 0;
    let wants_jxl: bool = match request.output_format() {
        OutputFormat::Jxl => true,
        _ => false,
    };
    if is_full && !has_resize && request.rotation == 0 && request.page == 0 && wants_jxl {
        let reply: Result<Vec<u8>, String> = read(source_path);
        let ghost shown = reply;
        assert(read_outcome(*read, source_path, shown));
        match reply {
            Err(why) => {
                return Err(CrabMagickError::DecodeIo(why));
            },
            Ok(v) => {
                let passes: bool = match detect_format(v.as_slice()) {
                    SourceFormat::Jxl => true,
                    _ => false,
                };
                if passes {
                    return Ok(v);
                }
            },
        }
    }
    work(source_path, &request, cache, read, codecs, encoders)
}

/// The size of the first page of a source.
pub fn get_info<
    T: Fn(&str) -> Result<Vec<u8>, String>,
    H: Fn(&[u8]) -> Result<JxlHeader, String>,
    R: Fn(&[u8], Option<(u32, u32, u32, u32)>) -> Result<Vec<JxlPlane>, String>,
    K: Fn(u32) -> u8,
    J: Fn(&[u8]) -> Result<JpegPixels, JpegFailure>,
    W: Fn(&[u8]) -> Result<WebpPixels, WebpFailure>,
    S: Fn(&resvg::usvg::Tree, &SvgJob) -> Option<Vec<u8>>,
    P: Fn(&[u8], &PdfJob) -> Result<(Vec<u8>, u32, u32), PdfFailure>,
>(source_path: &str, read: &T, codecs: &Codecs<H, R, K, J, W, S, P>) -> (r: Result<
    ImageInfo,
    CrabMagickError,
>)
    requires
        ready(*codecs),
        call_requires(*read, (source_path,)),
    ensures
        path_info(*read, *codecs, source_path, 0, info_result(r)),
{
    decode_any_info(source_path, 0, read, codecs)
}

/// Empties the cache of decoded images and sets its limit in mebibytes.
pub fn init(cache: &mut DecodedImageCache, tile_cache_mb: u64, _output_cache_mb: u64)
    ensures
        final(cache)@ == cache_new(limit_of(tile_cache_mb as int)),
{
    init_decoded_image_cache(cache, tile_cache_mb);
}

/// The container with its error as the pipeline tells it.
pub open spec fn transcode_outcome(
    r: Result<Container, RecodeError>,
    out: Result<Container, CrabMagickError>,
) -> bool {
    match r {
        Ok(container) => out is Ok && out->Ok_0 == container,
        Err(e) => out is Err && out->Err_0@ == ErrorModel::EncodeError(e.text()),
    }
}

/// The outcome of recoding a JPEG file's data.
pub open spec fn data_transcoded<F: Fn(&RecodePlan) -> Coded, G: Fn(&JpegData) -> SideData>(
    jpeg: JpegData,
    code: F,
    extract: G,
    out: Result<Container, CrabMagickError>,
) -> bool {
    exists|r: Result<Container, RecodeError>| #[trigger]
        recodes_into(jpeg, code, extract, r) && transcode_outcome(r, out)
}

/// The outcome of parsing and recoding the bytes of a JPEG file.
pub open spec fn bytes_transcoded<
    Q: Fn(&[u8]) -> Result<JpegData, String>,
    F: Fn(&RecodePlan) -> Coded,
    G: Fn(&JpegData) -> SideData,
>(
    parse: Q,
    code: F,
    extract: G,
    v: Seq<u8>,
    out: Result<Container, CrabMagickError>,
) -> bool {
    exists|bytes: &[u8], parsed: Result<JpegData, String>|
        {
            &&& bytes@ == v
            &&& #[trigger] call_ensures(parse, (bytes,), parsed)
            &&& match parsed {
                Err(why) => out is Err && out->Err_0@ == failed("JPEG parsing failed: "@, why@),
                Ok(jpeg) => if jpeg_ok(jpeg) {
                    data_transcoded(jpeg, code, extract, out)
                } else {
                    out is Err && out->Err_0@ == ErrorModel::DecodeMalformed(
                        "JPEG components do not match its dimensions"@,
                    )
                },
            }
        }
}

/// Recodes a JPEG file into a container from which it can be restored.
pub fn transcode_jpeg_to_jxl<
    T: Fn(&str) -> Result<Vec<u8>, String>,
    Q: Fn(&[u8]) -> Result<JpegData, String>,
    F: Fn(&RecodePlan) -> Coded,
    G: Fn(&JpegData) -> SideData,
>(path: &str, read: &T, parse: &Q, code: F, extract: G) -> (out: Result<
    Container,
    CrabMagickError,
>)
    requires
        call_requires(*read, (path,)),
        forall|b: &[u8]| #[trigger] call_requires(*parse, (b,)),
        forall|plan: RecodePlan| #[trigger] call_requires(code, (&plan,)),
        forall|plan: RecodePlan, c: (Vec<u8>, usize)|
            #[trigger] call_ensures(code, (&plan,), Ok::<(Vec<u8>, usize), RecodeError>(c)) ==> c.1
                <= c.0@.len(),
        forall|jpeg: JpegData| #[trigger] call_requires(extract, (&jpeg,)),
    ensures
        exists|reply: Result<Vec<u8>, String>|
            {
                &&& #[trigger] read_outcome(*read, path, reply)
                &&& match reply {
                    Err(why) => out is Err && out->Err_0@ == ErrorModel::DecodeIo(why@),
                    Ok(v) => bytes_transcoded(*parse, code, extract, v@, out),
                }
            },
{
    let reply: Result<Vec<u8>, String> = read(path);
    let ghost shown = reply;
    assert(read_outcome(*read, path, shown));
    match reply {
        Err(why) => Err(CrabMagickError::DecodeIo(why)),
        Ok(v) => {
            let bytes: &[u8] = v.as_slice();
            let parsed: Result<JpegData, String> = parse(bytes);
            let ghost parsed_shown = parsed;
            assert(call_ensures(*parse, (bytes,), parsed_shown));
            match parsed {
                Err(why) => Err(malformed("JPEG parsing failed: ", &why)),
                Ok(jpeg) => {
                    if !can_recode(&jpeg) {
                        return Err(
                            CrabMagickError::decode_malformed(
                                "JPEG components do not match its dimensions",
                            ),
                        );
                    }
                    let r: Result<Container, RecodeError> = encode_jpeg_to_jxl_container(
                        &jpeg,
                        code,
                        extract,
                    );
                    let ghost r_shown = r;
                    assert(recodes_into(jpeg, code, extract, r_shown));
                    let out: Result<Container, CrabMagickError> = match r {
                        Ok(container) => Ok(container),
                        Err(e) => Err(CrabMagickError::EncodeError(e.message())),
                    };
                    assert(transcode_outcome(r_shown, out));
                    assert(data_transcoded(jpeg, code, extract, out));
                    out
                },
            }
        },
    }
}

/// The functions of this module under one name.
#[derive(Debug, Default)]
pub struct CrabMagickProcessor;

impl CrabMagickProcessor {
    /// Empties the cache of decoded images and sets its limit in mebibytes.
    pub fn init(cache: &mut DecodedImageCache, tile_cache_mb: u64, output_cache_mb: u64)
        ensures
            final(cache)@ == cache_new(limit_of(tile_cache_mb as int)),
    {
        init(cache, tile_cache_mb, output_cache_mb);
    }

    /// Processes one image.
    pub fn process_image<
        T: Fn(&str) -> Result<Vec<u8>, String>,
        H: Fn(&[u8]) -> Result<JxlHeader, String>,
        R: Fn(&[u8], Option<(u32, u32, u32, u32)>) -> Result<Vec<JxlPlane>, String>,
        K: Fn(u32) -> u8,
        J: Fn(&[u8]) -> Result<JpegPixels, JpegFailure>,
        W: Fn(&[u8]) -> Result<WebpPixels, WebpFailure>,
        S: Fn(&resvg::usvg::Tree, &SvgJob) -> Option<Vec<u8>>,
        P: Fn(&[u8], &PdfJob) -> Result<(Vec<u8>, u32, u32), PdfFailure>,
        D: Fn(u8) -> u32,
        O: Fn(&JpegPlan, &[u8], u32, u32) -> Result<Vec<u8>, JpegEncodeFailure>,
        X: Fn(&JxlPlan, &[u8], u32, u32) -> Result<Vec<u8>, String>,
    >(
        source_path: &str,
        request: ProcessRequest,
        cache: &mut DecodedImageCache,
        read: &T,
        codecs: &Codecs<H, R, K, J, W, S, P>,
        encoders: &Encoders<D, O, X>,
    ) -> (r: Result<Vec<u8>, CrabMagickError>)
        requires
            ready(*codecs),
            encoders_ready(*encoders),
            call_requires(*read, (source_path,)),
        ensures
            processed(
                *read,
                *codecs,
                *encoders,
                source_path,
                request,
                old(cache)@,
                final(cache)@,
                bytes_result(r),
            ),
    {
        process_image(source_path, request, cache, read, codecs, encoders)
    }

    /// The size of the first page of a source.
    pub fn get_info<
        T: Fn(&str) -> Result<Vec<u8>, String>,
        H: Fn(&[u8]) -> Result<JxlHeader, String>,
        R: Fn(&[u8], Option<(u32, u32, u32, u32)>) -> Result<Vec<JxlPlane>, String>,
        K: Fn(u32) -> u8,
        J: Fn(&[u8]) -> Result<JpegPixels, JpegFailure>,
        W: Fn(&[u8]) -> Result<WebpPixels, WebpFailure>,
        S: Fn(&resvg::usvg::Tree, &SvgJob) -> Option<Vec<u8>>,
        P: Fn(&[u8], &PdfJob) -> Result<(Vec<u8>, u32, u32), PdfFailure>,
    >(source_path: &str, read: &T, codecs: &Codecs<H, R, K, J, W, S, P>) -> (r: Result<
        ImageInfo,
        CrabMagickError,
    >)
        requires
            ready(*codecs),
            call_requires(*read, (source_path,)),
        ensures
            path_info(*read, *codecs, source_path, 0, info_result(r)),
    {
        get_info(source_path, read, codecs)
    }
}

/// The size that is asked for is that of the picture before it is turned: a turn by one or three
/// right angles exchanges width and height of what is written.
pub proof fn lemma_transformed_size(m: ImageModel, request: ProcessRequest)
    requires
        m.width > 0,
        m.height > 0,
        transformed(m, request) is Ok,
    ensures
        ({
            let t = transformed(m, request)->Ok_0;
            let w = request.output_width;
            let h = request.output_height;
            let turned = request.rotation as int % 360 == 90 || request.rotation as int % 360 == 270;
            &&& w > 0 && h > 0 && !turned ==> t.width == w && t.height == h
            &&& w > 0 && h > 0 && turned ==> t.width == h && t.height == w
            &&& w == 0 && h == 0 && !turned ==> t.width == m.width && t.height == m.height
            &&& w == 0 && h == 0 && turned ==> t.width == m.height && t.height == m.width
            &&& w == 0 && h == 0 && request.rotation as int % 360 == 0 ==> t == m
        }),
{
}

/// A file is passed on as it is only where nothing is asked of its picture that would change it, and
/// JPEG XL is what is asked for.
pub proof fn lemma_passed_unchanged(m: ImageModel, request: ProcessRequest)
    ensures
        may_pass(request) ==> transformed(m, request) == Ok::<ImageModel, ErrorModel>(m),
        may_pass(request) ==> region_tuple(request.region()) is None && !request.square_region,
        !may_pass(request) && request.encode is Jxl && request.page == 0 && request.region() is None
            && !request.square_region ==> request.output_width > 0 || request.output_height > 0
            || request.rotation > 0,
        may_pass(request) ==> request.encode is Jxl,
{
}

} // verus!
