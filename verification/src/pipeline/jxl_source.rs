//! JPEG XL input: whole images and regions, by way of a renderer of planes.
use crate::pipeline::image::{
    image_result, region_error, region_of, validate_requested_region, DecodedImage, ImageModel,
};
use crate::pipeline::planar::{is_gray, is_packed, planar_to_rgb, PixelFormat};
use crate::request::{failed, malformed, CrabMagickError, ErrorModel, ImageInfo, RequestedRegion};
use vstd::prelude::*;

verus! {

/// What the header of a picture says.
#[derive(Debug, Clone, Copy, PartialEq, Eq, Structural)]
pub struct JxlHeader {
    /// Width in pixels.
    pub width: u32,
    /// Height in pixels.
    pub height: u32,
    /// Channels.
    pub format: PixelFormat,
}

/// A rendered plane: samples as the bits of single-precision floats.
#[derive(Debug)]
pub struct JxlPlane {
    /// Width in samples.
    pub width: u32,
    /// Height in samples.
    pub height: u32,
    /// Samples, row by row.
    pub data: Vec<u32>,
}

/// Samples of a plane, if there is one.
pub open spec fn plane_at(planes: Seq<JxlPlane>, i: int) -> Seq<u32> {
    if i < planes.len() {
        planes[i].data@
    } else {
        Seq::empty()
    }
}

/// The planes that the format needs are there, and the size of the image can be told.
pub open spec fn planes_usable(
    format: PixelFormat,
    planes: Seq<JxlPlane>,
    width: u32,
    height: u32,
) -> bool {
    &&& planes.len() >= (if is_gray(format) {
        1int
    } else {
        3int
    })
    &&& 3 * (width * height) <= u32::MAX
}

/// The image is packed from the planes, or the planes are too few or too large.
pub open spec fn planes_packed<K: Fn(u32) -> u8>(
    kernel: K,
    format: PixelFormat,
    planes: Seq<JxlPlane>,
    width: u32,
    height: u32,
    r: Result<ImageModel, ErrorModel>,
) -> bool {
    if planes_usable(format, planes, width, height) {
        &&& r is Ok
        &&& r->Ok_0.width == width
        &&& r->Ok_0.height == height
        &&& r->Ok_0.wf()
        &&& is_packed(
            kernel,
            format,
            plane_at(planes, 0),
            plane_at(planes, 1),
            plane_at(planes, 2),
            r->Ok_0.pixels,
        )
    } else {
        r == Err::<ImageModel, ErrorModel>(
            ErrorModel::DecodeMalformed("JPEG XL decode produced unusable image planes"@),
        )
    }
}

/// Packs rendered planes.
pub fn pack_planes<K: Fn(u32) -> u8>(
    kernel: &K,
    format: PixelFormat,
    planes: &Vec<JxlPlane>,
    width: u32,
    height: u32,
) -> (r: Result<DecodedImage, CrabMagickError>)
    requires
        forall|v: u32| #[trigger] call_requires(*kernel, (v,)),
    ensures
        planes_packed(*kernel, format, planes@, width, height, image_result(r)),
{
    let needed: usize = match format {
        PixelFormat::Gray | PixelFormat::Graya => 1,
        _ => 3,
    };
    assert(0 <= width * height <= 0xFFFF_FFFF * 0xFFFF_FFFF) by (nonlinear_arith)
        requires
            width <= 0xFFFF_FFFF,
            height <= 0xFFFF_FFFF,
    ;
    let area: u64 = width as u64 * height as u64;
    if planes.len() < needed || area > 0x5555_5555 {
        return Err(
            CrabMagickError::decode_malformed("JPEG XL decode produced unusable image planes"),
        );
    }
    let g: Option<&Vec<u32>> = if planes.len() > 1 {
        Some(&planes[1].data)
    } else {
        None
    };
    let b: Option<&Vec<u32>> = if planes.len() > 2 {
        Some(&planes[2].data)
    } else {
        None
    };
    Ok(planar_to_rgb(kernel, format, &planes[0].data, g, b, width, height))
}

/// A whole image as the header and the renderer's reply give it.
pub open spec fn full_outcome<K: Fn(u32) -> u8>(
    kernel: K,
    header: JxlHeader,
    planes: Result<Vec<JxlPlane>, String>,
    r: Result<ImageModel, ErrorModel>,
) -> bool {
    match planes {
        Ok(planes) => planes_packed(
            kernel,
            header.format,
            planes@,
            header.width,
            header.height,
            r,
        ),
        Err(why) => r == Err::<ImageModel, ErrorModel>(
            failed("JPEG XL frame rendering failed: "@, why@),
        ),
    }
}

/// A region as the header and the renderer's reply give it. Its size is that of the first plane.
pub open spec fn region_outcome<K: Fn(u32) -> u8>(
    kernel: K,
    header: JxlHeader,
    planes: Result<Vec<JxlPlane>, String>,
    r: Result<ImageModel, ErrorModel>,
) -> bool {
    match planes {
        Ok(planes) => if planes@.len() == 0 {
            r == Err::<ImageModel, ErrorModel>(
                ErrorModel::DecodeMalformed(
                    "JPEG XL decode produced no image planes for the requested region"@,
                ),
            )
        } else {
            planes_packed(
                kernel,
                header.format,
                planes@,
                planes@[0].width,
                planes@[0].height,
                r,
            )
        },
        Err(why) => r == Err::<ImageModel, ErrorModel>(
            failed("JPEG XL region rendering failed: "@, why@),
        ),
    }
}

/// A region, or no region, within the image of a header.
pub open spec fn region_refused(region: Option<(u32, u32, u32, u32)>, header: JxlHeader) -> Option<
    ErrorModel,
> {
    match region {
        Some(t) => region_error(
            region_of(t),
            ImageInfo { width: header.width, height: header.height },
        ),
        None => None,
    }
}

/// The image is what the two replies come to: the header's failure, the region's refusal, or the
/// planes.
pub open spec fn jxl_decoded<
    H: Fn(&[u8]) -> Result<JxlHeader, String>,
    R: Fn(&[u8], Option<(u32, u32, u32, u32)>) -> Result<Vec<JxlPlane>, String>,
    K: Fn(u32) -> u8,
>(
    open: H,
    render: R,
    kernel: K,
    bytes: &[u8],
    region: Option<(u32, u32, u32, u32)>,
    r: Result<ImageModel, ErrorModel>,
) -> bool {
    exists|header: Result<JxlHeader, String>|
        {
            &&& #[trigger] call_ensures(open, (bytes,), header)
            &&& jxl_rendered(render, kernel, bytes, region, header, r)
        }
}

/// The image is what a header and the renderer's reply come to.
pub open spec fn jxl_rendered<
    R: Fn(&[u8], Option<(u32, u32, u32, u32)>) -> Result<Vec<JxlPlane>, String>,
    K: Fn(u32) -> u8,
>(
    render: R,
    kernel: K,
    bytes: &[u8],
    region: Option<(u32, u32, u32, u32)>,
    header: Result<JxlHeader, String>,
    r: Result<ImageModel, ErrorModel>,
) -> bool {
    match header {
        Err(why) => r == Err::<ImageModel, ErrorModel>(
            failed("JPEG XL header parsing failed: "@, why@),
        ),
        Ok(header) => match region_refused(region, header) {
            Some(error) => r == Err::<ImageModel, ErrorModel>(error),
            None => exists|planes: Result<Vec<JxlPlane>, String>|
                {
                    &&& #[trigger] call_ensures(render, (bytes, region), planes)
                    &&& if region is Some {
                        region_outcome(kernel, header, planes, r)
                    } else {
                        full_outcome(kernel, header, planes, r)
                    }
                },
        },
    }
}

/// A whole image from the renderer's reply.
pub fn finish_full<K: Fn(u32) -> u8>(
    kernel: &K,
    header: JxlHeader,
    planes: Result<Vec<JxlPlane>, String>,
) -> (r: Result<DecodedImage, CrabMagickError>)
    requires
        forall|v: u32| #[trigger] call_requires(*kernel, (v,)),
    ensures
        full_outcome(*kernel, header, planes, image_result(r)),
{
    match planes {
        Ok(planes) => pack_planes(kernel, header.format, &planes, header.width, header.height),
        Err(why) => Err(malformed("JPEG XL frame rendering failed: ", &why)),
    }
}

/// A region from the renderer's reply.
pub fn finish_region<K: Fn(u32) -> u8>(
    kernel: &K,
    header: JxlHeader,
    planes: Result<Vec<JxlPlane>, String>,
) -> (r: Result<DecodedImage, CrabMagickError>)
    requires
        forall|v: u32| #[trigger] call_requires(*kernel, (v,)),
    ensures
        region_outcome(*kernel, header, planes, image_result(r)),
{
    match planes {
        Ok(planes) => {
            if planes.len() == 0 {
                return Err(
                    CrabMagickError::decode_malformed(
                        "JPEG XL decode produced no image planes for the requested region",
                    ),
                );
            }
            pack_planes(kernel, header.format, &planes, planes[0].width, planes[0].height)
        },
        Err(why) => Err(malformed("JPEG XL region rendering failed: ", &why)),
    }
}

/// Decodes a whole JPEG XL image.
pub fn decode_jxl_from_bytes<
    H: Fn(&[u8]) -> Result<JxlHeader, String>,
    R: Fn(&[u8], Option<(u32, u32, u32, u32)>) -> Result<Vec<JxlPlane>, String>,
    K: Fn(u32) -> u8,
>(bytes: &[u8], open: &H, render: &R, kernel: &K) -> (r: Result<DecodedImage, CrabMagickError>)
    requires
        forall|b: &[u8]| #[trigger] call_requires(*open, (b,)),
        forall|b: &[u8], region: Option<(u32, u32, u32, u32)>| #[trigger]
            call_requires(*render, (b, region)),
        forall|v: u32| #[trigger] call_requires(*kernel, (v,)),
    ensures
        jxl_decoded(*open, *render, *kernel, bytes, None, image_result(r)),
{
    let reply: Result<JxlHeader, String> = open(bytes);
    let ghost reply_shown = reply;
    assert(call_ensures(*open, (bytes,), reply_shown));
    let r: Result<DecodedImage, CrabMagickError> = match reply {
        Err(why) => Err(malformed("JPEG XL header parsing failed: ", &why)),
        Ok(header) => {
            let planes: Result<Vec<JxlPlane>, String> = render(bytes, None);
            let ghost shown = planes;
            assert(call_ensures(*render, (bytes, None), shown));
            finish_full(kernel, header, planes)
        },
    };
    assert(jxl_rendered(*render, *kernel, bytes, None, reply_shown, image_result(r)));
    r
}

/// Decodes a region of a JPEG XL image.
pub fn decode_jxl_region_from_bytes<
    H: Fn(&[u8]) -> Result<JxlHeader, String>,
    R: Fn(&[u8], Option<(u32, u32, u32, u32)>) -> Result<Vec<JxlPlane>, String>,
    K: Fn(u32) -> u8,
>(
    bytes: &[u8],
    left: u32,
    top: u32,
    width: u32,
    height: u32,
    open: &H,
    render: &R,
    kernel: &K,
) -> (r: Result<DecodedImage, CrabMagickError>)
    requires
        forall|b: &[u8]| #[trigger] call_requires(*open, (b,)),
        forall|b: &[u8], region: Option<(u32, u32, u32, u32)>| #[trigger]
            call_requires(*render, (b, region)),
        forall|v: u32| #[trigger] call_requires(*kernel, (v,)),
    ensures
        jxl_decoded(
            *open,
            *render,
            *kernel,
            bytes,
            Some((left, top, width, height)),
            image_result(r),
        ),
{
    let region: Option<(u32, u32, u32, u32)> = Some((left, top, width, height));
    let reply: Result<JxlHeader, String> = open(bytes);
    let ghost reply_shown = reply;
    assert(call_ensures(*open, (bytes,), reply_shown));
    let r: Result<DecodedImage, CrabMagickError> = match reply {
        Err(why) => Err(malformed("JPEG XL header parsing failed: ", &why)),
        Ok(header) => {
            let info: ImageInfo = ImageInfo { width: header.width, height: header.height };
            let requested: RequestedRegion = RequestedRegion::new(left, top, width, height);
            match validate_requested_region(requested, info) {
                Err(error) => Err(error),
                Ok(_) => {
                    let planes: Result<Vec<JxlPlane>, String> = render(bytes, region);
                    let ghost shown = planes;
                    assert(call_ensures(*render, (bytes, region), shown));
                    finish_region(kernel, header, planes)
                },
            }
        },
    };
    assert(jxl_rendered(*render, *kernel, bytes, region, reply_shown, image_result(r)));
    r
}

/// The size that a header's outcome stands for.
pub open spec fn header_info(header: Result<JxlHeader, String>) -> Result<ImageInfo, ErrorModel> {
    match header {
        Ok(header) => Ok(ImageInfo { width: header.width, height: header.height }),
        Err(why) => Err(failed("JPEG XL header parsing failed: "@, why@)),
    }
}

/// Sizes with their errors by their models.
pub open spec fn info_result(r: Result<ImageInfo, CrabMagickError>) -> Result<
    ImageInfo,
    ErrorModel,
> {
    match r {
        Ok(info) => Ok(info),
        Err(error) => Err(error@),
    }
}

/// The size is what the header's outcome stands for.
pub open spec fn jxl_info<H: Fn(&[u8]) -> Result<JxlHeader, String>>(
    open: H,
    bytes: &[u8],
    r: Result<ImageInfo, ErrorModel>,
) -> bool {
    exists|header: Result<JxlHeader, String>| #[trigger]
        call_ensures(open, (bytes,), header) && r == header_info(header)
}

/// The size of a JPEG XL image.
pub fn decode_jxl_info_from_bytes<H: Fn(&[u8]) -> Result<JxlHeader, String>>(
    bytes: &[u8],
    open: &H,
) -> (r: Result<ImageInfo, CrabMagickError>)
    requires
        forall|b: &[u8]| #[trigger] call_requires(*open, (b,)),
    ensures
        jxl_info(*open, bytes, info_result(r)),
{
    let reply: Result<JxlHeader, String> = open(bytes);
    let ghost shown = reply;
    assert(call_ensures(*open, (bytes,), shown));
    match reply {
        Ok(header) => Ok(ImageInfo { width: header.width, height: header.height }),
        Err(why) => Err(malformed("JPEG XL header parsing failed: ", &why)),
    }
}

} // verus!
