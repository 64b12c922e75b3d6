//! Sizes of sources, and JPEG XL sources by path.
use crate::pipeline::bundled::{
    JpegFailure, JpegPixels, PdfFailure, PdfJob, WebpFailure, WebpPixels,
};
use crate::pipeline::codecs::{decode_info_via_image, loaded};
use crate::pipeline::decode::{
    decode_pdf_page, general_image, no_avif, no_format, no_pdf, pdf_source, read_outcome, ready,
    Codecs,
};
use crate::pipeline::codecs::decode_via_image;
use crate::pipeline::format::{detect_format, format_of, SourceFormat};
use crate::pipeline::image::{image_result, DecodedImage, ImageModel};
use crate::pipeline::jxl_source::{
    decode_jxl_from_bytes, decode_jxl_info_from_bytes, decode_jxl_region_from_bytes, info_result,
    jxl_decoded, jxl_info, JxlHeader, JxlPlane,
};
use crate::pipeline::svg::{decode_svg_info, svg_measured, SvgJob};
use crate::pipeline::tiff::{decode_tiff_page, tiff_page};
use crate::request::{failed, CrabMagickError, ErrorModel, ImageInfo};
use vstd::prelude::*;

verus! {

/// The size of an image.
pub open spec fn image_info(m: Result<ImageModel, ErrorModel>) -> Result<ImageInfo, ErrorModel> {
    match m {
        Ok(m) => Ok(m.info()),
        Err(error) => Err(error),
    }
}

/// The size of an image.
pub fn size_of_image(image: Result<DecodedImage, CrabMagickError>) -> (r: Result<
    ImageInfo,
    CrabMagickError,
>)
    ensures
        info_result(r) == image_info(image_result(image)),
{
    match image {
        Ok(image) => Ok(ImageInfo { width: image.width, height: image.height }),
        Err(error) => Err(error),
    }
}

/// The size that the general decoder finds.
pub open spec fn general_info(bytes: Seq<u8>) -> Result<ImageInfo, ErrorModel> {
    match loaded(bytes) {
        Ok(v) => Ok(ImageInfo { width: v.1, height: v.2 }),
        Err(why) => Err(failed("source image decode failed: "@, why)),
    }
}

/// The outcome of asking for the size of a source.
pub open spec fn info_outcome<
    H: Fn(&[u8]) -> Result<JxlHeader, String>,
    R: Fn(&[u8], Option<(u32, u32, u32, u32)>) -> Result<Vec<JxlPlane>, String>,
    K: Fn(u32) -> u8,
    J: Fn(&[u8]) -> Result<JpegPixels, JpegFailure>,
    W: Fn(&[u8]) -> Result<WebpPixels, WebpFailure>,
    S: Fn(&resvg::usvg::Tree, &SvgJob) -> Option<Vec<u8>>,
    P: Fn(&[u8], &PdfJob) -> Result<(Vec<u8>, u32, u32), PdfFailure>,
>(
    c: Codecs<H, R, K, J, W, S, P>,
    bytes: &[u8],
    page: u32,
    r: Result<ImageInfo, ErrorModel>,
) -> bool {
    match format_of(bytes@) {
        SourceFormat::Jxl => jxl_info(c.jxl_header, bytes, r),
        SourceFormat::Svg => svg_measured(bytes@, r),
        SourceFormat::Tiff => if page > 0 {
            r == image_info(tiff_page(bytes@, page as nat))
        } else {
            r == general_info(bytes@)
        },
        SourceFormat::Pdf => if c.features.pdf {
            exists|m: Result<ImageModel, ErrorModel>| #[trigger]
                pdf_source(c.pdf, bytes, page, (0, 0), m) && r == image_info(m)
        } else {
            r == Err::<ImageInfo, ErrorModel>(no_pdf())
        },
        SourceFormat::Avif => if c.features.avif {
            r == image_info(general_image(bytes@))
        } else {
            r == Err::<ImageInfo, ErrorModel>(no_avif())
        },
        SourceFormat::Unknown => r == Err::<ImageInfo, ErrorModel>(no_format()),
        _ => r == general_info(bytes@),
    }
}

/// The size of a source.
pub fn decode_bytes_info<
    H: Fn(&[u8]) -> Result<JxlHeader, String>,
    R: Fn(&[u8], Option<(u32, u32, u32, u32)>) -> Result<Vec<JxlPlane>, String>,
    K: Fn(u32) -> u8,
    J: Fn(&[u8]) -> Result<JpegPixels, JpegFailure>,
    W: Fn(&[u8]) -> Result<WebpPixels, WebpFailure>,
    S: Fn(&resvg::usvg::Tree, &SvgJob) -> Option<Vec<u8>>,
    P: Fn(&[u8], &PdfJob) -> Result<(Vec<u8>, u32, u32), PdfFailure>,
>(bytes: &[u8], page: u32, codecs: &Codecs<H, R, K, J, W, S, P>) -> (r: Result<
    ImageInfo,
    CrabMagickError,
>)
    requires
        ready(*codecs),
    ensures
        info_outcome(*codecs, bytes, page, info_result(r)),
{
    match detect_format(bytes) {
        SourceFormat::Jxl => decode_jxl_info_from_bytes(bytes, &codecs.jxl_header),
        SourceFormat::Svg => decode_svg_info(bytes),
        SourceFormat::Tiff => if page > 0 {
            size_of_image(decode_tiff_page(bytes, page))
        } else {
            decode_info_via_image(bytes)
        },
        SourceFormat::Pdf => if codecs.features.pdf {
            let image: Result<DecodedImage, CrabMagickError> = decode_pdf_page(
                &codecs.pdf,
                bytes,
                page,
                0,
                0,
            );
            let ghost m = image_result(image);
            assert(pdf_source(codecs.pdf, bytes, page, (0, 0), m));
            size_of_image(image)
        } else {
            Err(
                CrabMagickError::decode_unsupported_format(
                    "PDF decoding is unavailable in this build; enable the `pdf` feature",
                ),
            )
        },
        SourceFormat::Avif => if codecs.features.avif {
            size_of_image(decode_via_image(bytes))
        } else {
            Err(
                CrabMagickError::decode_unsupported_format(
                    "AVIF decoding is unavailable in this build; enable the `avif` feature",
                ),
            )
        },
        SourceFormat::Unknown => Err(
            CrabMagickError::decode_unsupported_format(
                "file signature did not match any supported image format",
            ),
        ),
        _ => decode_info_via_image(bytes),
    }
}

/// The outcome of asking for the size of a source by its path.
pub open spec fn path_info<
    T: Fn(&str) -> Result<Vec<u8>, String>,
    H: Fn(&[u8]) -> Result<JxlHeader, String>,
    R: Fn(&[u8], Option<(u32, u32, u32, u32)>) -> Result<Vec<JxlPlane>, String>,
    K: Fn(u32) -> u8,
    J: Fn(&[u8]) -> Result<JpegPixels, JpegFailure>,
    W: Fn(&[u8]) -> Result<WebpPixels, WebpFailure>,
    S: Fn(&resvg::usvg::Tree, &SvgJob) -> Option<Vec<u8>>,
    P: Fn(&[u8], &PdfJob) -> Result<(Vec<u8>, u32, u32), PdfFailure>,
>(
    read: T,
    c: Codecs<H, R, K, J, W, S, P>,
    path: &str,
    page: u32,
    r: Result<ImageInfo, ErrorModel>,
) -> bool {
    exists|reply: Result<Vec<u8>, String>|
        {
            &&& #[trigger] read_outcome(read, path, reply)
            &&& match reply {
                Err(why) => r == Err::<ImageInfo, ErrorModel>(ErrorModel::DecodeIo(why@)),
                Ok(v) => exists|bytes: &[u8]|
                    bytes@ == v@ && #[trigger] info_outcome(c, bytes, page, r),
            }
        }
}

/// The size of a source by its path.
pub fn decode_any_info<
    T: Fn(&str) -> Result<Vec<u8>, String>,
    H: Fn(&[u8]) -> Result<JxlHeader, String>,
    R: Fn(&[u8], Option<(u32, u32, u32, u32)>) -> Result<Vec<JxlPlane>, String>,
    K: Fn(u32) -> u8,
    J: Fn(&[u8]) -> Result<JpegPixels, JpegFailure>,
    W: Fn(&[u8]) -> Result<WebpPixels, WebpFailure>,
    S: Fn(&resvg::usvg::Tree, &SvgJob) -> Option<Vec<u8>>,
    P: Fn(&[u8], &PdfJob) -> Result<(Vec<u8>, u32, u32), PdfFailure>,
>(path: &str, page: u32, read: &T, codecs: &Codecs<H, R, K, J, W, S, P>) -> (r: Result<
    ImageInfo,
    CrabMagickError,
>)
    requires
        ready(*codecs),
        call_requires(*read, (path,)),
    ensures
        path_info(*read, *codecs, path, page, info_result(r)),
{
    let reply: Result<Vec<u8>, String> = read(path);
    let ghost shown = reply;
    assert(read_outcome(*read, path, shown));
    match reply {
        Err(why) => Err(CrabMagickError::DecodeIo(why)),
        Ok(v) => {
            let bytes: &[u8] = v.as_slice();
            let r: Result<ImageInfo, CrabMagickError> = decode_bytes_info(bytes, page, codecs);
            assert(info_outcome(*codecs, bytes, page, info_result(r)));
            r
        },
    }
}

/// The outcome for a JPEG XL source by its path.
pub open spec fn jxl_path_decoded<
    T: Fn(&str) -> Result<Vec<u8>, String>,
    H: Fn(&[u8]) -> Result<JxlHeader, String>,
    R: Fn(&[u8], Option<(u32, u32, u32, u32)>) -> Result<Vec<JxlPlane>, String>,
    K: Fn(u32) -> u8,
>(
    read: T,
    open: H,
    render: R,
    kernel: K,
    path: &str,
    region: Option<(u32, u32, u32, u32)>,
    r: Result<ImageModel, ErrorModel>,
) -> bool {
    exists|reply: Result<Vec<u8>, String>|
        {
            &&& #[trigger] read_outcome(read, path, reply)
            &&& match reply {
                Err(why) => r == Err::<ImageModel, ErrorModel>(ErrorModel::DecodeIo(why@)),
                Ok(v) => exists|bytes: &[u8]|
                    bytes@ == v@ && #[trigger] jxl_decoded(open, render, kernel, bytes, region, r),
            }
        }
}

/// Decodes a whole JPEG XL image by its path.
pub fn decode_jxl<
    T: Fn(&str) -> Result<Vec<u8>, String>,
    H: Fn(&[u8]) -> Result<JxlHeader, String>,
    R: Fn(&[u8], Option<(u32, u32, u32, u32)>) -> Result<Vec<JxlPlane>, String>,
    K: Fn(u32) -> u8,
>(path: &str, read: &T, open: &H, render: &R, kernel: &K) -> (r: Result<
    DecodedImage,
    CrabMagickError,
>)
    requires
        call_requires(*read, (path,)),
        forall|b: &[u8]| #[trigger] call_requires(*open, (b,)),
        forall|b: &[u8], region: Option<(u32, u32, u32, u32)>| #[trigger]
            call_requires(*render, (b, region)),
        forall|v: u32| #[trigger] call_requires(*kernel, (v,)),
    ensures
        jxl_path_decoded(*read, *open, *render, *kernel, path, None, image_result(r)),
{
    let reply: Result<Vec<u8>, String> = read(path);
    let ghost shown = reply;
    assert(read_outcome(*read, path, shown));
    match reply {
        Err(why) => Err(CrabMagickError::DecodeIo(why)),
        Ok(v) => {
            let bytes: &[u8] = v.as_slice();
            let r: Result<DecodedImage, CrabMagickError> = decode_jxl_from_bytes(
                bytes,
                open,
                render,
                kernel,
            );
            assert(jxl_decoded(*open, *render, *kernel, bytes, None, image_result(r)));
            r
        },
    }
}

/// Decodes a region of a JPEG XL image by its path.
pub fn decode_jxl_region<
    T: Fn(&str) -> Result<Vec<u8>, String>,
    H: Fn(&[u8]) -> Result<JxlHeader, String>,
    R: Fn(&[u8], Option<(u32, u32, u32, u32)>) -> Result<Vec<JxlPlane>, String>,
    K: Fn(u32) -> u8,
>(
    path: &str,
    left: u32,
    top: u32,
    width: u32,
    height: u32,
    read: &T,
    open: &H,
    render: &R,
    kernel: &K,
) -> (r: Result<DecodedImage, CrabMagickError>)
    requires
        call_requires(*read, (path,)),
        forall|b: &[u8]| #[trigger] call_requires(*open, (b,)),
        forall|b: &[u8], region: Option<(u32, u32, u32, u32)>| #[trigger]
            call_requires(*render, (b, region)),
        forall|v: u32| #[trigger] call_requires(*kernel, (v,)),
    ensures
        jxl_path_decoded(
            *read,
            *open,
            *render,
            *kernel,
            path,
            Some((left, top, width, height)),
            image_result(r),
        ),
{
    let reply: Result<Vec<u8>, String> = read(path);
    let ghost shown = reply;
    assert(read_outcome(*read, path, shown));
    match reply {
        Err(why) => Err(CrabMagickError::DecodeIo(why)),
        Ok(v) => {
            let bytes: &[u8] = v.as_slice();
            let r: Result<DecodedImage, CrabMagickError> = decode_jxl_region_from_bytes(
                bytes,
                left,
                top,
                width,
                height,
                open,
                render,
                kernel,
            );
            assert(jxl_decoded(
                *open,
                *render,
                *kernel,
                bytes,
                Some((left, top, width, height)),
                image_result(r),
            ));
            r
        },
    }
}

/// The outcome of asking for the size of a JPEG XL source by its path.
pub open spec fn jxl_path_info<
    T: Fn(&str) -> Result<Vec<u8>, String>,
    H: Fn(&[u8]) -> Result<JxlHeader, String>,
>(read: T, open: H, path: &str, r: Result<ImageInfo, ErrorModel>) -> bool {
    exists|reply: Result<Vec<u8>, String>|
        {
            &&& #[trigger] read_outcome(read, path, reply)
            &&& match reply {
                Err(why) => r == Err::<ImageInfo, ErrorModel>(ErrorModel::DecodeIo(why@)),
                Ok(v) => exists|bytes: &[u8]|
                    bytes@ == v@ && #[trigger] jxl_info(open, bytes, r),
            }
        }
}

/// The size of a JPEG XL image by its path.
pub fn decode_jxl_info<
    T: Fn(&str) -> Result<Vec<u8>, String>,
    H: Fn(&[u8]) -> Result<JxlHeader, String>,
>(path: &str, read: &T, open: &H) -> (r: Result<ImageInfo, CrabMagickError>)
    requires
        call_requires(*read, (path,)),
        forall|b: &[u8]| #[trigger] call_requires(*open, (b,)),
    ensures
        jxl_path_info(*read, *open, path, info_result(r)),
{
    let reply: Result<Vec<u8>, String> = read(path);
    let ghost shown = reply;
    assert(read_outcome(*read, path, shown));
    match reply {
        Err(why) => Err(CrabMagickError::DecodeIo(why)),
        Ok(v) => {
            let bytes: &[u8] = v.as_slice();
            let r: Result<ImageInfo, CrabMagickError> = decode_jxl_info_from_bytes(bytes, open);
            assert(jxl_info(*open, bytes, info_result(r)));
            r
        },
    }
}

} // verus!
