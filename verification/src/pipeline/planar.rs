//! Planes of floating-point samples as packed RGB.
//!
//! Samples are held as the bits of single-precision floats; a kernel turns one into a byte.
use crate::pipeline::image::DecodedImage;
use vstd::prelude::*;

verus! {

/// Channels of a picture.
#[derive(Debug, Clone, Copy, PartialEq, Eq, Structural)]
pub enum PixelFormat {
    /// Grey.
    Gray,
    /// Grey and alpha.
    Graya,
    /// Red, green, blue.
    Rgb,
    /// Red, green, blue, alpha.
    Rgba,
    /// Cyan, magenta, yellow, black.
    Cmyk,
    /// Cyan, magenta, yellow, black, alpha.
    Cmyka,
}

/// One plane serves all channels.
pub open spec fn is_gray(format: PixelFormat) -> bool {
    format is Gray || format is Graya
}

/// The plane that a channel is taken from.
pub open spec fn channel_plane(
    format: PixelFormat,
    r: Seq<u32>,
    g: Seq<u32>,
    b: Seq<u32>,
    k: int,
) -> Seq<u32> {
    if is_gray(format) || k == 0 {
        r
    } else if k == 1 {
        g
    } else {
        b
    }
}

/// How many pixels all the planes in use have.
pub open spec fn plane_len(format: PixelFormat, r: Seq<u32>, g: Seq<u32>, b: Seq<u32>) -> int {
    let rg = if g.len() < r.len() {
        g.len()
    } else {
        r.len()
    };
    if is_gray(format) {
        r.len() as int
    } else if b.len() < rg {
        b.len() as int
    } else {
        rg as int
    }
}

/// A byte of the packed image: what the kernel makes of its sample, or 0 where a plane has ended.
pub open spec fn is_packed_byte<K: Fn(u32) -> u8>(
    kernel: K,
    format: PixelFormat,
    r: Seq<u32>,
    g: Seq<u32>,
    b: Seq<u32>,
    i: int,
    v: u8,
) -> bool {
    if i / 3 < plane_len(format, r, g, b) {
        call_ensures(kernel, (channel_plane(format, r, g, b, i % 3)[i / 3],), v)
    } else {
        v == 0
    }
}

/// The bytes are those of the planes.
pub open spec fn is_packed<K: Fn(u32) -> u8>(
    kernel: K,
    format: PixelFormat,
    r: Seq<u32>,
    g: Seq<u32>,
    b: Seq<u32>,
    pixels: Seq<u8>,
) -> bool {
    forall|i: int|
        0 <= i < pixels.len() ==> is_packed_byte(kernel, format, r, g, b, i, #[trigger] pixels[i])
}

/// An optional plane; none counts as empty.
pub open spec fn plane_or_empty(plane: Option<&Vec<u32>>) -> Seq<u32> {
    match plane {
        Some(p) => p@,
        None => Seq::empty(),
    }
}

/// The planes that a format needs are there.
pub open spec fn planes_present(
    format: PixelFormat,
    g: Option<&Vec<u32>>,
    b: Option<&Vec<u32>>,
) -> bool {
    is_gray(format) || (g is Some && b is Some)
}

/// Packs planes: grey three times over, colors side by side.
pub fn planar_to_rgb<K: Fn(u32) -> u8>(
    kernel: &K,
    pixel_format: PixelFormat,
    r: &Vec<u32>,
    g: Option<&Vec<u32>>,
    b: Option<&Vec<u32>>,
    width: u32,
    height: u32,
) -> (image: DecodedImage)
    requires
        planes_present(pixel_format, g, b),
        3 * (width * height) <= u32::MAX,
        forall|v: u32| #[trigger] call_requires(*kernel, (v,)),
    ensures
        image.width == width,
        image.height == height,
        image@.wf(),
        is_packed(*kernel, pixel_format, r@, plane_or_empty(g), plane_or_empty(b), image.pixels@),
{
    let gray: bool = match pixel_format {
        PixelFormat::Gray | PixelFormat::Graya => true,
        _ => false,
    };
    let g_plane: &Vec<u32> = match g {
        Some(p) => p,
        None => r,
    };
    let b_plane: &Vec<u32> = match b {
        Some(p) => p,
        None => r,
    };
    let ghost gs = plane_or_empty(g);
    let ghost bs = plane_or_empty(b);
    let mut available: usize = r.len();
    if !gray {
        if g_plane.len() < available {
            available = g_plane.len();
        }
        if b_plane.len() < available {
            available = b_plane.len();
        }
    }
    assert(available == plane_len(pixel_format, r@, gs, bs));
    assert(0 <= width * height) by (nonlinear_arith);
    let count: u64 = width as u64 * height as u64;
    let mut pixels: Vec<u8> = Vec::new();
    let mut p: u64 = 0;
    while p < count
        invariant
            p <= count,
            count == width * height,
            3 * count <= u32::MAX,
            forall|v: u32| #[trigger] call_requires(*kernel, (v,)),
            gray == is_gray(pixel_format),
            !gray ==> g_plane@ == gs && b_plane@ == bs,
            available == plane_len(pixel_format, r@, gs, bs),
            pixels@.len() == 3 * p,
            is_packed(*kernel, pixel_format, r@, gs, bs, pixels@),
        decreases count - p,
    {
        let ghost before = pixels@;
        if p < available as u64 {
            let i: usize = p as usize;
            let v0: u8 = kernel(r[i]);
            if gray {
                pixels.push(v0);
                pixels.push(v0);
                pixels.push(v0);
            } else {
                let v1: u8 = kernel(g_plane[i]);
                let v2: u8 = kernel(b_plane[i]);
                pixels.push(v0);
                pixels.push(v1);
                pixels.push(v2);
            }
        } else {
            pixels.push(0);
            pixels.push(0);
            pixels.push(0);
        }
        proof {
            assert forall|i: int| 0 <= i < pixels@.len() implies is_packed_byte(
                *kernel,
                pixel_format,
                r@,
                gs,
                bs,
                i,
                #[trigger] pixels@[i],
            ) by {
                if i < 3 * p {
                    assert(pixels@[i] == before[i]);
                } else {
                    assert(i / 3 == p);
                }
            }
        }
        p = p + 1;
    }
    DecodedImage { pixels, width, height }
}

} // verus!
