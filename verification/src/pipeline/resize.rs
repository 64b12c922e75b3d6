//! Resizing of packed RGB images.
use crate::pipeline::image::{DecodedImage, ImageModel};
use vstd::prelude::*;

verus! {

/// Convolution kernels.
#[derive(Debug, Clone, Copy, PartialEq, Eq, Structural)]
pub enum ResizeFilter {
    /// Linear interpolation, for strong reductions.
    Bilinear,
    /// Catmull-Rom cubic interpolation.
    CatmullRom,
}

/// A dimension scaled by `num / den`, at least one, as 32 bits hold it.
pub open spec fn scaled(src: int, num: int, den: int) -> int {
    let v = src * num / (if den > 1 {
        den
    } else {
        1
    });
    (if v > 1 {
        v
    } else {
        1
    }) % 0x1_0000_0000
}

/// The size for a request: a dimension that is 0 follows from the other one.
pub open spec fn output_size(src_w: int, src_h: int, out_w: int, out_h: int) -> (int, int) {
    if out_w == 0 && out_h == 0 {
        (src_w, src_h)
    } else if out_h == 0 {
        (out_w, scaled(src_h, out_w, src_w))
    } else if out_w == 0 {
        (scaled(src_w, out_h, src_h), out_h)
    } else {
        (out_w, out_h)
    }
}

/// A dimension that follows from the other one keeps the aspect ratio, rounded down, unless it
/// comes out below one or above what 32 bits hold.
pub proof fn lemma_aspect(src_w: int, src_h: int, out_w: int)
    requires
        0 < src_w,
        0 <= src_h,
        0 < out_w,
        src_w <= src_h * out_w < src_w * 0x1_0000_0000,
    ensures
        ({
            let h = output_size(src_w, src_h, out_w, 0).1;
            h * src_w <= src_h * out_w < (h + 1) * src_w
        }),
{
    let p = src_h * out_w;
    let h = p / src_w;
    vstd::arithmetic::div_mod::lemma_fundamental_div_mod(p, src_w);
    assert(0 <= p % src_w < src_w) by (nonlinear_arith)
        requires
            src_w > 0,
    ;
    assert(1 <= h < 0x1_0000_0000) by (nonlinear_arith)
        requires
            p == src_w * h + p % src_w,
            0 <= p % src_w < src_w,
            src_w <= p < src_w * 0x1_0000_0000,
            src_w > 0,
    ;
    assert(h * src_w <= p < (h + 1) * src_w) by (nonlinear_arith)
        requires
            p == src_w * h + p % src_w,
            0 <= p % src_w < src_w,
    ;
}

/// A width that follows from the height keeps the aspect ratio too.
pub proof fn lemma_aspect_width(src_w: int, src_h: int, out_h: int)
    requires
        0 <= src_w,
        0 < src_h,
        0 < out_h,
        src_h <= src_w * out_h < src_h * 0x1_0000_0000,
    ensures
        ({
            let w = output_size(src_w, src_h, 0, out_h).0;
            w * src_h <= src_w * out_h < (w + 1) * src_h
        }),
{
    lemma_aspect(src_h, src_w, out_h);
}

/// Turning a picture and a request on their side turns the size that comes of them.
pub proof fn lemma_size_turned(src_w: int, src_h: int, out_w: int, out_h: int)
    ensures
        ({
            let a = output_size(src_w, src_h, out_w, out_h);
            let b = output_size(src_h, src_w, out_h, out_w);
            a.0 == b.1 && a.1 == b.0
        }),
{
}

/// A dimension that is asked for is had; without a request the size stays; a dimension that would
/// come out below one is one.
pub proof fn lemma_size_asked(src_w: int, src_h: int, out_w: int, out_h: int)
    requires
        0 <= src_w,
        0 <= src_h,
        0 <= out_w,
        0 <= out_h,
    ensures
        ({
            let r = output_size(src_w, src_h, out_w, out_h);
            &&& out_w > 0 ==> r.0 == out_w
            &&& out_h > 0 ==> r.1 == out_h
            &&& out_w == 0 && out_h == 0 ==> r == (src_w, src_h)
            &&& out_w > 0 && out_h == 0 && src_h * out_w < src_w ==> r.1 == 1
            &&& out_w == 0 && out_h > 0 && src_w * out_h < src_h ==> r.0 == 1
        }),
{
    if out_w > 0 && out_h == 0 && src_h * out_w < src_w {
        let p = src_h * out_w;
        assert(p >= 0) by (nonlinear_arith)
            requires
                p == src_h * out_w,
                src_h >= 0,
                out_w >= 0,
        ;
        vstd::arithmetic::div_mod::lemma_basic_div(p, src_w);
    }
    if out_w == 0 && out_h > 0 && src_w * out_h < src_h {
        let p = src_w * out_h;
        assert(p >= 0) by (nonlinear_arith)
            requires
                p == src_w * out_h,
                src_w >= 0,
                out_h >= 0,
        ;
        vstd::arithmetic::div_mod::lemma_basic_div(p, src_h);
    }
}

/// A picture that keeps its shape keeps its size: asking for its own width or height changes
/// nothing.
pub proof fn lemma_own_size(src_w: int, src_h: int)
    requires
        0 < src_w < 0x1_0000_0000,
        0 < src_h < 0x1_0000_0000,
    ensures
        output_size(src_w, src_h, src_w, 0) == (src_w, src_h),
        output_size(src_w, src_h, 0, src_h) == (src_w, src_h),
{
    vstd::arithmetic::div_mod::lemma_div_multiples_vanish(src_h, src_w);
    vstd::arithmetic::div_mod::lemma_div_multiples_vanish(src_w, src_h);
    assert(src_h * src_w == src_w * src_h) by (nonlinear_arith);
}

/// A dimension scaled.
fn scale(src: u32, num: u32, den: u32) -> (r: u32)
    ensures
        r == scaled(src as int, num as int, den as int),
{
    assert(0 <= src * num <= 0xFFFF_FFFF * 0xFFFF_FFFF) by (nonlinear_arith)
        requires
            src <= 0xFFFF_FFFF,
            num <= 0xFFFF_FFFF,
    ;
    let d: u64 = if den > 1 {
        den as u64
    } else {
        1
    };
    let v: u64 = src as u64 * num as u64 / d;
    let at_least_one: u64 = if v > 1 {
        v
    } else {
        1
    };
    let r: u64 = at_least_one % 0x1_0000_0000;
    r as u32
}

/// The size for a request.
pub fn resolve_output_size(src_w: u32, src_h: u32, out_w: u32, out_h: u32) -> (r: (u32, u32))
    ensures
        (r.0 as int, r.1 as int) == output_size(
            src_w as int,
            src_h as int,
            out_w as int,
            out_h as int,
        ),
{
    if out_w == 0 && out_h == 0 {
        (src_w, src_h)
    } else if out_h == 0 {
        (out_w, scale(src_h, out_w, src_w))
    } else if out_w == 0 {
        (scale(src_w, out_h, src_h), out_h)
    } else {
        (out_w, out_h)
    }
}

/// The kernel for a change of size: linear where either dimension comes below half.
pub open spec fn filter_for(src_w: int, src_h: int, out_w: int, out_h: int) -> ResizeFilter {
    if out_w < src_w / 2 || out_h < src_h / 2 {
        ResizeFilter::Bilinear
    } else {
        ResizeFilter::CatmullRom
    }
}

/// The kernel for a change of size.
pub fn choose_filter(src_w: u32, src_h: u32, out_w: u32, out_h: u32) -> (r: ResizeFilter)
    ensures
        r == filter_for(src_w as int, src_h as int, out_w as int, out_h as int),
{
    if out_w < src_w / 2 || out_h < src_h / 2 {
        ResizeFilter::Bilinear
    } else {
        ResizeFilter::CatmullRom
    }
}

/// The bytes that a convolution makes of an image.
pub uninterp spec fn convolved(
    pixels: Seq<u8>,
    width: u32,
    height: u32,
    out_width: u32,
    out_height: u32,
    linear: bool,
) -> Seq<u8>;

/// Resizes packed RGB bytes: `fast_image_resize`'s `Resizer::resize` on images of type `U8x3`,
/// with the convolution algorithm.
///
/// Claims that the result has the bytes of all pixels of the new size, and that it is fixed by
/// the bytes, the sizes and the kernel: the convolution is made of integer sums, the same ones
/// whichever instructions compute them.
#[verifier::external_body]
fn convolve(
    pixels: Vec<u8>,
    width: u32,
    height: u32,
    out_width: u32,
    out_height: u32,
    filter: ResizeFilter,
) -> (r: Vec<u8>)
    requires
        pixels@.len() >= 3 * (width * height),
        3 * (out_width * out_height) <= isize::MAX,
        3 * (width * out_height) <= isize::MAX,
        width > 0,
        height > 0,
    ensures
        r@ == convolved(pixels@, width, height, out_width, out_height, filter is Bilinear),
        r@.len() == 3 * (out_width * out_height),
{
    let kind = fast_image_resize::PixelType::U8x3;
    let filter = match filter {
        ResizeFilter::Bilinear => fast_image_resize::FilterType::Bilinear,
        ResizeFilter::CatmullRom => fast_image_resize::FilterType::CatmullRom,
    };
    let source = fast_image_resize::images::Image::from_vec_u8(width, height, pixels, kind)
        .expect("validated RGB buffer");
    let mut destination = fast_image_resize::images::Image::new(out_width, out_height, kind);
    let options = fast_image_resize::ResizeOptions::new()
        .resize_alg(fast_image_resize::ResizeAlg::Convolution(filter));
    fast_image_resize::Resizer::new()
        .resize(&source, &mut destination, Some(&options))
        .expect("resize should succeed for RGB buffers");
    destination.buffer().to_vec()
}

/// The image has a size and another one is asked for.
pub open spec fn is_resized(m: ImageModel, out_w: u32, out_h: u32) -> bool {
    &&& m.width != 0
    &&& m.height != 0
    &&& output_size(m.width as int, m.height as int, out_w as int, out_h as int) != (
        m.width as int,
        m.height as int,
    )
}

/// An image resized; one that is empty or has the size already stays as it is.
pub open spec fn resized(m: ImageModel, out_w: u32, out_h: u32) -> ImageModel {
    if is_resized(m, out_w, out_h) {
        let size = output_size(m.width as int, m.height as int, out_w as int, out_h as int);
        ImageModel {
            pixels: convolved(
                m.pixels,
                m.width,
                m.height,
                size.0 as u32,
                size.1 as u32,
                filter_for(m.width as int, m.height as int, size.0, size.1) is Bilinear,
            ),
            width: size.0 as u32,
            height: size.1 as u32,
        }
    } else {
        m
    }
}

/// The image can be resized: it has the bytes of all its pixels, and memory could hold the
/// result and the image in between.
pub open spec fn resizable(m: ImageModel, out_w: u32, out_h: u32) -> bool {
    is_resized(m, out_w, out_h) ==> {
        let size = output_size(m.width as int, m.height as int, out_w as int, out_h as int);
        &&& m.pixels.len() >= 3 * (m.width * m.height)
        &&& 3 * (size.0 * size.1) <= isize::MAX
        &&& 3 * (m.width * size.1) <= isize::MAX
    }
}

/// Three times an area is within what memory could hold.
fn area_fits(a: u32, b: u32, limit: usize) -> (r: bool)
    ensures
        r == (3 * (a * b) <= limit),
{
    assert(0 <= a * b <= 0xFFFF_FFFF * 0xFFFF_FFFF) by (nonlinear_arith)
        requires
            a <= 0xFFFF_FFFF,
            b <= 0xFFFF_FFFF,
    ;
    3 * (a as u128 * b as u128) <= limit as u128
}

/// Whether the image can be resized.
pub fn can_resize(image: &DecodedImage, output_width: u32, output_height: u32) -> (r: bool)
    ensures
        r == resizable(image@, output_width, output_height),
{
    if image.width == 0 || image.height == 0 {
        return true;
    }
    let (w, h): (u32, u32) = resolve_output_size(
        image.width,
        image.height,
        output_width,
        output_height,
    );
    if w == image.width && h == image.height {
        return true;
    }
    area_fits(image.width, image.height, image.pixels.len()) && area_fits(
        w,
        h,
        isize::MAX as usize,
    ) && area_fits(image.width, h, isize::MAX as usize)
}

/// Resizes an image; a dimension that is 0 follows from the other one.
pub fn resize_rgb(image: DecodedImage, output_width: u32, output_height: u32) -> (r: DecodedImage)
    requires
        resizable(image@, output_width, output_height),
    ensures
        r@ == resized(image@, output_width, output_height),
        is_resized(image@, output_width, output_height) ==> r@.wf(),
{
    if image.width == 0 || image.height == 0 {
        return image;
    }
    let (w, h): (u32, u32) = resolve_output_size(
        image.width,
        image.height,
        output_width,
        output_height,
    );
    if w == image.width && h == image.height {
        return image;
    }
    let filter: ResizeFilter = choose_filter(image.width, image.height, w, h);
    let pixels: Vec<u8> = convolve(image.pixels, image.width, image.height, w, h, filter);
    DecodedImage { pixels, width: w, height: h }
}

} // verus!
