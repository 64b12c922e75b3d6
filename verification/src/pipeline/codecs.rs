//! Codecs of outside crates: decoding to packed RGB, and encoding of packed RGB.
use crate::pipeline::format::{format_of, SourceFormat};
use crate::pipeline::image::{image_result, DecodedImage, ImageModel};
use crate::pipeline::tiff::tiff_holds;
use crate::request::{
    failed, malformed, CrabMagickError, ErrorModel, ImageInfo, PngFilter, TiffCompression,
};
use image::codecs::png::{CompressionType, FilterType, PngEncoder};
use image::ImageEncoder;
use vstd::prelude::*;

verus! {

/// What loading an image comes to: bytes, width and height, or why it failed.
pub uninterp spec fn loaded(bytes: Seq<u8>) -> Result<(Seq<u8>, u32, u32), Seq<char>>;

/// A loaded image with its bytes and its error's text as sequences.
pub open spec fn load_result(r: Result<(Vec<u8>, u32, u32), String>) -> Result<
    (Seq<u8>, u32, u32),
    Seq<char>,
> {
    match r {
        Ok(v) => Ok((v.0@, v.1, v.2)),
        Err(e) => Err(e@),
    }
}

/// Loads an image of any format that can be told by its content and converts it to RGB: `image`'s
/// `load_from_memory`, then `to_rgb8` and `into_raw`.
///
/// Claims that the bytes decide the outcome, and that an image has the bytes of all its pixels
/// and no more.
#[verifier::external_body]
fn load_rgb(bytes: &[u8]) -> (r: Result<(Vec<u8>, u32, u32), String>)
    ensures
        load_result(r) == loaded(bytes@),
        r is Ok ==> r->Ok_0.0@.len() == 3 * (r->Ok_0.1 * r->Ok_0.2),
{
    match image::load_from_memory(bytes) {
        Ok(image) => {
            let rgb = image.to_rgb8();
            let (width, height) = rgb.dimensions();
            Ok((rgb.into_raw(), width, height))
        },
        Err(error) => Err(error.to_string()),
    }
}

/// The image that a load result stands for; a failure is told with what failed.
pub open spec fn load_image(
    r: Result<(Seq<u8>, u32, u32), Seq<char>>,
    what: Seq<char>,
) -> Result<ImageModel, ErrorModel> {
    match r {
        Ok(v) => Ok(ImageModel { pixels: v.0, width: v.1, height: v.2 }),
        Err(why) => Err(failed(what, why)),
    }
}

/// The image that a load result stands for.
pub fn finish_load(r: Result<(Vec<u8>, u32, u32), String>, what: &str) -> (image: Result<
    DecodedImage,
    CrabMagickError,
>)
    ensures
        image_result(image) == load_image(load_result(r), what@),
{
    match r {
        Ok((pixels, width, height)) => Ok(DecodedImage { pixels, width, height }),
        Err(why) => Err(malformed(what, &why)),
    }
}

/// Decodes an image of any format that can be told by its content.
pub fn decode_via_image(bytes: &[u8]) -> (r: Result<DecodedImage, CrabMagickError>)
    ensures
        image_result(r) == load_image(loaded(bytes@), "generic image decode failed: "@),
        r is Ok ==> r->Ok_0@.wf(),
{
    finish_load(load_rgb(bytes), "generic image decode failed: ")
}

/// The size of an image of any format that can be told by its content.
pub fn decode_info_via_image(bytes: &[u8]) -> (r: Result<ImageInfo, CrabMagickError>)
    ensures
        r is Ok <==> loaded(bytes@) is Ok,
        r is Ok ==> r->Ok_0 == (ImageInfo {
            width: loaded(bytes@)->Ok_0.1,
            height: loaded(bytes@)->Ok_0.2,
        }),
        r is Err ==> r->Err_0@ == failed("source image decode failed: "@, loaded(bytes@)->Err_0),
{
    match load_rgb(bytes) {
        Ok((_, width, height)) => Ok(ImageInfo { width, height }),
        Err(why) => Err(malformed("source image decode failed: ", &why)),
    }
}

// ---- encoding ----
/// An encoded file, or the text of an error, as sequences.
pub open spec fn file_result(r: Result<Vec<u8>, String>) -> Result<Seq<u8>, Seq<char>> {
    match r {
        Ok(v) => Ok(v@),
        Err(e) => Err(e@),
    }
}

/// Sizes of images whose files keep within the limits that decoders have by default.
pub open spec fn readable_size(width: u32, height: u32) -> bool {
    &&& 1 <= width <= 0xFFFF
    &&& 1 <= height <= 0xFFFF
    &&& 3 * (width * height) <= 0x400_0000
}

/// A file is loaded as these pixels.
pub open spec fn loads_as(bytes: Seq<u8>, pixels: Seq<u8>, width: u32, height: u32) -> bool {
    loaded(bytes) == Ok::<(Seq<u8>, u32, u32), Seq<char>>((pixels, width, height))
}

/// Bits of a sample of a PNG file.
#[derive(Debug, Clone, Copy, PartialEq, Eq, Structural)]
pub enum PngDepth {
    Eight,
    Sixteen,
}

/// Samples of eight bits as samples of sixteen: each byte twice.
pub open spec fn doubled(pixels: Seq<u8>) -> Seq<u8> {
    Seq::new(2 * pixels.len(), |i: int| pixels[i / 2])
}

/// Bytes of a sample.
pub open spec fn sample_bytes(depth: PngDepth) -> int {
    match depth {
        PngDepth::Eight => 1,
        PngDepth::Sixteen => 2,
    }
}

/// What encoding as PNG comes to, for samples of a depth, a compression level and a row filter.
pub uninterp spec fn png_encoded(
    samples: Seq<u8>,
    width: u32,
    height: u32,
    depth: PngDepth,
    level: u8,
    filter: PngFilter,
) -> Result<Seq<u8>, Seq<char>>;

/// Encodes packed RGB as PNG: `image`'s `PngEncoder::new_with_quality` and `write_image`.
///
/// Claims that the samples, the size, the depth, the level and the filter decide the outcome, that
/// a file starts with the PNG signature, and that an image within the limits is written and loaded
/// back as it was; with samples of sixteen bits, as the image whose bytes they are twice. The
/// encoder takes no other number of bytes than that of all samples, and levels of 0 to 9.
#[verifier::external_body]
pub(crate) fn write_png(
    samples: &[u8],
    width: u32,
    height: u32,
    depth: PngDepth,
    level: u8,
    filter: PngFilter,
) -> (r: Result<Vec<u8>, String>)
    requires
        samples@.len() == 3 * (width * height) * sample_bytes(depth),
        level <= 9,
    ensures
        file_result(r) == png_encoded(samples@, width, height, depth, level, filter),
        r is Ok ==> format_of(r->Ok_0@) == SourceFormat::Png,
        readable_size(width, height) ==> r is Ok && (depth is Eight ==> loads_as(
            r->Ok_0@,
            samples@,
            width,
            height,
        )),
        readable_size(width, height) && depth is Sixteen ==> forall|pixels: Seq<u8>|
            #[trigger] doubled(pixels) == samples@ ==> loads_as(r->Ok_0@, pixels, width, height),
{
    let kind = match filter {
        PngFilter::NoFilter => FilterType::NoFilter,
        PngFilter::Sub => FilterType::Sub,
        PngFilter::Up => FilterType::Up,
        PngFilter::Avg => FilterType::Avg,
        PngFilter::Paeth => FilterType::Paeth,
        PngFilter::All => FilterType::Adaptive,
    };
    let color = match depth {
        PngDepth::Eight => image::ExtendedColorType::Rgb8,
        PngDepth::Sixteen => image::ExtendedColorType::Rgb16,
    };
    let mut out = Vec::new();
    let encoder = PngEncoder::new_with_quality(&mut out, CompressionType::Level(level), kind);
    encoder.write_image(samples, width, height, color).map(|_| out).map_err(|e| e.to_string())
}

/// What encoding as BMP comes to.
pub uninterp spec fn bmp_encoded(pixels: Seq<u8>, width: u32, height: u32) -> Result<
    Seq<u8>,
    Seq<char>,
>;

/// Encodes packed RGB as BMP: `image`'s `BmpEncoder`.
///
/// Claims that the bytes and the size decide the outcome, that a file starts with the letters `BM`,
/// and that an image within the limits is written and loaded back as it was. The encoder takes no
/// other number of bytes than that of all pixels.
#[verifier::external_body]
pub(crate) fn write_bmp(pixels: &[u8], width: u32, height: u32) -> (r: Result<Vec<u8>, String>)
    requires
        pixels@.len() == 3 * (width * height),
    ensures
        file_result(r) == bmp_encoded(pixels@, width, height),
        r is Ok ==> format_of(r->Ok_0@) == SourceFormat::Bmp,
        readable_size(width, height) ==> r is Ok && loads_as(r->Ok_0@, pixels@, width, height),
{
    let mut out = Vec::new();
    let encoder = image::codecs::bmp::BmpEncoder::new(&mut out);
    match encoder.write_image(pixels, width, height, image::ExtendedColorType::Rgb8) {
        Ok(()) => Ok(out),
        Err(error) => Err(error.to_string()),
    }
}

/// What encoding as GIF comes to, at a speed of 1 to 30.
pub uninterp spec fn gif_encoded(pixels: Seq<u8>, width: u32, height: u32, speed: u8) -> Result<
    Seq<u8>,
    Seq<char>,
>;

/// Encodes packed RGB as GIF: `image`'s `GifEncoder::new_with_speed` and `write_image`.
///
/// Claims that the bytes, the size and the speed decide the outcome, and that a file starts with
/// `GIF89a`. The encoder takes no other number of bytes than that of all pixels, and speeds of 1 to
/// 30.
#[verifier::external_body]
pub(crate) fn write_gif(pixels: &[u8], width: u32, height: u32, speed: u8) -> (r: Result<
    Vec<u8>,
    String,
>)
    requires
        pixels@.len() == 3 * (width * height),
        1 <= speed <= 30,
    ensures
        file_result(r) == gif_encoded(pixels@, width, height, speed),
        r is Ok ==> format_of(r->Ok_0@) == SourceFormat::Gif,
{
    let mut out = Vec::new();
    let encoder = image::codecs::gif::GifEncoder::new_with_speed(&mut out, speed.into());
    match encoder.write_image(pixels, width, height, image::ExtendedColorType::Rgb8) {
        Ok(()) => Ok(out),
        Err(error) => Err(error.to_string()),
    }
}

/// An outcome that encoding pixels as AVIF may come to.
pub uninterp spec fn avif_outcome(
    pixels: Seq<(u8, u8, u8)>,
    width: u32,
    height: u32,
    quality: u8,
    speed: u8,
    file: Result<Seq<u8>, Seq<char>>,
) -> bool;

/// Encodes pixels as AVIF: `ravif`'s `Encoder::encode_rgb`.
///
/// Claims that the outcome is one that the pixels, the size, the quality and the speed may come to,
/// and that a file starts with a box of type `ftyp` and brand `avif`. Which outcome it is stays
/// open: how the picture is cut into tiles follows the number of threads. The encoder takes qualities of 1 to
/// 100, speeds of 1 to 10, rows that are not empty, and all pixels.
#[verifier::external_body]
pub(crate) fn write_avif(
    pixels: &Vec<(u8, u8, u8)>,
    width: u32,
    height: u32,
    quality: u8,
    speed: u8,
) -> (r: Result<Vec<u8>, String>)
    requires
        pixels@.len() == width * height,
        width > 0,
        height > 0,
        1 <= quality <= 100,
        1 <= speed <= 10,
    ensures
        avif_outcome(pixels@, width, height, quality, speed, file_result(r)),
        r is Ok ==> format_of(r->Ok_0@) == SourceFormat::Avif,
{
    let rgb: Vec<ravif::RGB8> = pixels.iter().map(|p| ravif::RGB8::new(p.0, p.1, p.2)).collect();
    let source = ravif::Img::new(rgb.as_slice(), width as usize, height as usize);
    let encoder = ravif::Encoder::new().with_quality(quality.into()).with_speed(speed);
    match encoder.encode_rgb(source) {
        Ok(encoded) => Ok(encoded.avif_file),
        Err(error) => Err(error.to_string()),
    }
}

/// An outcome that encoding pixels as TIFF may come to.
pub uninterp spec fn tiff_outcome(
    pixels: Seq<u8>,
    width: u32,
    height: u32,
    compression: TiffCompression,
    predictor: bool,
    file: Result<Seq<u8>, Seq<char>>,
) -> bool;

/// Encodes packed RGB as TIFF, in strips: `tiff`'s `TiffEncoder::write_image`.
///
/// Claims that the outcome is one that the bytes, the size, the compression and the predictor may
/// come to, that a file starts with the byte order mark and the number of the format, and that an
/// image within the limits is written and read back as it was. Which outcome it is stays open:
/// numbers are written in the machine's byte order. The encoder knows no JPEG compression and needs
/// all pixels.
#[verifier::external_body]
pub(crate) fn write_tiff(
    pixels: &[u8],
    width: u32,
    height: u32,
    compression: TiffCompression,
    predictor: bool,
) -> (r: Result<Vec<u8>, String>)
    requires
        pixels@.len() == 3 * (width * height),
        !(compression is Jpeg),
    ensures
        tiff_outcome(pixels@, width, height, compression, predictor, file_result(r)),
        r is Ok ==> format_of(r->Ok_0@) == SourceFormat::Tiff,
        readable_size(width, height) ==> r is Ok && tiff_holds(
            r->Ok_0@,
            pixels@,
            width,
            height,
        ),
{
    let mut out = std::io::Cursor::new(Vec::new());
    let method = match compression {
        TiffCompression::Lzw => tiff::encoder::Compression::Lzw,
        TiffCompression::Deflate => tiff::encoder::Compression::Deflate(Default::default()),
        TiffCompression::Packbits => tiff::encoder::Compression::Packbits,
        _ => tiff::encoder::Compression::Uncompressed,
    };
    let kind = if predictor { tiff::tags::Predictor::Horizontal } else { tiff::tags::Predictor::None };
    let written = tiff::encoder::TiffEncoder::new(&mut out).and_then(|encoder| {
        let mut encoder = encoder.with_compression(method).with_predictor(kind);
        encoder.write_image::<tiff::encoder::colortype::RGB8>(width, height, pixels)
    });
    written.map(|_| out.into_inner()).map_err(|error| error.to_string())
}

} // verus!
