//! What the bundled decoders reply, and the images that their replies stand for.
use crate::pipeline::image::{image_result, DecodedImage, ImageModel};
use crate::pipeline::tiff::without_alpha;
use crate::request::{failed, malformed, CrabMagickError, ErrorModel};
use vstd::prelude::*;

verus! {

/// Pixels of a JPEG image: packed RGB, and the size if the decoder knows it.
#[derive(Debug)]
pub struct JpegPixels {
    /// Pixel bytes.
    pub pixels: Vec<u8>,
    /// Width and height.
    pub dimensions: Option<(usize, usize)>,
}

/// At which step a JPEG decoder failed, and why.
#[derive(Debug)]
pub enum JpegFailure {
    /// Reading the headers.
    Header(String),
    /// Decoding the pixels.
    Decode(String),
}

/// The low 32 bits of a dimension.
pub open spec fn low32(v: usize) -> u32 {
    (v as int % 0x1_0000_0000) as u32
}

/// The image that a JPEG decoder's reply stands for.
pub open spec fn jpeg_image(reply: Result<JpegPixels, JpegFailure>) -> Result<
    ImageModel,
    ErrorModel,
> {
    match reply {
        Err(JpegFailure::Header(why)) => Err(failed("JPEG header: "@, why@)),
        Err(JpegFailure::Decode(why)) => Err(failed("JPEG decode: "@, why@)),
        Ok(p) => match p.dimensions {
            None => Err(ErrorModel::DecodeMalformed("JPEG: no dimensions after decode"@)),
            Some(size) => Ok(
                ImageModel {
                    pixels: p.pixels@,
                    width: low32(size.0),
                    height: low32(size.1),
                },
            ),
        },
    }
}

fn to_low32(v: usize) -> (r: u32)
    ensures
        r == low32(v),
{
    let wide: u64 = v as u64 % 0x1_0000_0000;
    wide as u32
}

/// The image that a JPEG decoder's reply stands for.
pub fn finish_jpeg_decode(reply: Result<JpegPixels, JpegFailure>) -> (r: Result<
    DecodedImage,
    CrabMagickError,
>)
    ensures
        image_result(r) == jpeg_image(reply),
{
    match reply {
        Err(failure) => match failure {
            JpegFailure::Header(why) => Err(malformed("JPEG header: ", &why)),
            JpegFailure::Decode(why) => Err(malformed("JPEG decode: ", &why)),
        },
        Ok(p) => match p.dimensions {
            None => Err(CrabMagickError::decode_malformed("JPEG: no dimensions after decode")),
            Some((width, height)) => Ok(
                DecodedImage {
                    pixels: p.pixels,
                    width: to_low32(width),
                    height: to_low32(height),
                },
            ),
        },
    }
}

/// Pixels of a WebP image: packed RGB, or RGBA where there is alpha.
#[derive(Debug)]
pub struct WebpPixels {
    /// Pixel bytes.
    pub data: Vec<u8>,
    /// Width in pixels.
    pub width: u32,
    /// Height in pixels.
    pub height: u32,
    /// Pixels have four bytes.
    pub has_alpha: bool,
}

/// At which step a WebP decoder failed, and why.
#[derive(Debug)]
pub enum WebpFailure {
    /// Starting.
    Start(String),
    /// The pixels would not fit into memory.
    TooLarge,
    /// Decoding the pixels.
    Decode(String),
}

/// The image that a WebP decoder's reply stands for: alpha is dropped.
pub open spec fn webp_image(reply: Result<WebpPixels, WebpFailure>) -> Result<
    ImageModel,
    ErrorModel,
> {
    match reply {
        Err(WebpFailure::Start(why)) => Err(
            failed("WebP decoder initialization failed: "@, why@),
        ),
        Err(WebpFailure::TooLarge) => Err(
            ErrorModel::DecodeMalformed("WebP output buffer would exceed addressable memory"@),
        ),
        Err(WebpFailure::Decode(why)) => Err(failed("WebP pixel decode failed: "@, why@)),
        Ok(p) => Ok(
            ImageModel {
                pixels: if p.has_alpha {
                    Seq::new(
                        3 * (p.data@.len() / 4),
                        |i: int| p.data@[4 * (i / 3) + i % 3],
                    )
                } else {
                    p.data@
                },
                width: p.width,
                height: p.height,
            },
        ),
    }
}

/// The image that a WebP decoder's reply stands for.
pub fn finish_webp_decode(reply: Result<WebpPixels, WebpFailure>) -> (r: Result<
    DecodedImage,
    CrabMagickError,
>)
    ensures
        image_result(r) == webp_image(reply),
{
    match reply {
        Err(failure) => match failure {
            WebpFailure::Start(why) => Err(
                malformed("WebP decoder initialization failed: ", &why),
            ),
            WebpFailure::TooLarge => Err(
                CrabMagickError::decode_malformed(
                    "WebP output buffer would exceed addressable memory",
                ),
            ),
            WebpFailure::Decode(why) => Err(malformed("WebP pixel decode failed: ", &why)),
        },
        Ok(p) => {
            let pixels: Vec<u8> = if p.has_alpha {
                without_alpha(&p.data)
            } else {
                p.data
            };
            Ok(DecodedImage { pixels, width: p.width, height: p.height })
        },
    }
}

/// What rendering a PDF page is asked for: a page, and a target size where there is one.
#[derive(Debug, Clone, Copy, PartialEq, Eq, Structural)]
pub struct PdfJob {
    /// Page index.
    pub page: u16,
    /// Target width.
    pub width: Option<i32>,
    /// Target height.
    pub height: Option<i32>,
}

/// The job for a page and a size; 0 leaves a dimension open. Numbers wrap into the types that the
/// renderer takes.
pub open spec fn pdf_job(page: u32, out_w: u32, out_h: u32) -> PdfJob {
    PdfJob {
        page: (page as int % 0x1_0000) as u16,
        width: if out_w > 0 {
            Some(wrapped(out_w))
        } else {
            None
        },
        height: if out_h > 0 {
            Some(wrapped(out_h))
        } else {
            None
        },
    }
}

/// A number as 32 signed bits hold it.
pub open spec fn wrapped(v: u32) -> i32 {
    if v <= i32::MAX {
        v as i32
    } else {
        (v - 0x1_0000_0000) as i32
    }
}

fn wrap(v: u32) -> (r: i32)
    ensures
        r == wrapped(v),
{
    let wide: i64 = v as i64;
    if wide <= 0x7FFF_FFFF {
        wide as i32
    } else {
        (wide - 0x1_0000_0000) as i32
    }
}

/// The job for a page and a size.
pub fn plan_pdf(page: u32, out_w: u32, out_h: u32) -> (r: PdfJob)
    ensures
        r == pdf_job(page, out_w, out_h),
{
    let low: u32 = page % 0x1_0000;
    PdfJob {
        page: low as u16,
        width: if out_w > 0 {
            Some(wrap(out_w))
        } else {
            None
        },
        height: if out_h > 0 {
            Some(wrap(out_h))
        } else {
            None
        },
    }
}

/// At which step a PDF renderer failed, and why.
#[derive(Debug)]
pub enum PdfFailure {
    /// Loading the document.
    Load(String),
    /// Finding the page.
    Page(String),
    /// Rendering.
    Render(String),
}

/// The image that a PDF renderer's reply stands for.
pub open spec fn pdf_image(reply: Result<(Vec<u8>, u32, u32), PdfFailure>) -> Result<
    ImageModel,
    ErrorModel,
> {
    match reply {
        Err(PdfFailure::Load(why)) => Err(failed("PDF loading failed: "@, why@)),
        Err(PdfFailure::Page(why)) => Err(failed("PDF page lookup failed: "@, why@)),
        Err(PdfFailure::Render(why)) => Err(failed("PDF rasterization failed: "@, why@)),
        Ok(v) => Ok(ImageModel { pixels: v.0@, width: v.1, height: v.2 }),
    }
}

/// The image that a PDF renderer's reply stands for.
pub fn finish_pdf(reply: Result<(Vec<u8>, u32, u32), PdfFailure>) -> (r: Result<
    DecodedImage,
    CrabMagickError,
>)
    ensures
        image_result(r) == pdf_image(reply),
{
    match reply {
        Err(failure) => match failure {
            PdfFailure::Load(why) => Err(malformed("PDF loading failed: ", &why)),
            PdfFailure::Page(why) => Err(malformed("PDF page lookup failed: ", &why)),
            PdfFailure::Render(why) => Err(malformed("PDF rasterization failed: ", &why)),
        },
        Ok((pixels, width, height)) => Ok(DecodedImage { pixels, width, height }),
    }
}

} // verus!
