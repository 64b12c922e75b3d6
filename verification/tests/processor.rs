use crabmagick_core::jxl::jpeg_data::{JpegComponentType, JpegData};
use crabmagick_core::jxl::jpeg_encode::{RecodePlan, SideData};
use crabmagick_core::jxl::jpeg_recode::RecodeError;
use crabmagick_core::pipeline::bundled::{
    JpegFailure, JpegPixels, PdfFailure, PdfJob, WebpFailure, WebpPixels,
};
use crabmagick_core::pipeline::cache::DecodedImageCache;
use crabmagick_core::pipeline::codecs::decode_via_image;
use crabmagick_core::pipeline::decode::{decode_any, decode_any_with_options, Codecs};
use crabmagick_core::pipeline::encode::{
    can_encode, encode, plan_jpeg, speed_of_avif, speed_of_gif, Features, JpegEncodeFailure,
    JpegPlan,
};
use crabmagick_core::pipeline::format::{detect_format, SourceFormat};
use crabmagick_core::pipeline::image::DecodedImage;
use crabmagick_core::pipeline::info::{
    decode_any_info, decode_jxl, decode_jxl_info, decode_jxl_region,
};
use crabmagick_core::pipeline::jxl_options::JxlPlan;
use crabmagick_core::pipeline::jxl_source::{JxlHeader, JxlPlane};
use crabmagick_core::pipeline::planar::PixelFormat;
use crabmagick_core::pipeline::svg::SvgJob;
use crabmagick_core::pipeline::tiff::decode_tiff_page;
use crabmagick_core::processor::{
    get_info, init, process_image, transcode_jpeg_to_jxl, CrabMagickProcessor, Encoders,
};
use crabmagick_core::request::{
    ChromaSubsampling, CrabMagickError, EncodeOptions, GifEncodeOptions, ImageInfo,
    JpegEncodeOptions, JxlEncodeOptions, OutputFormat, PngEncodeOptions, PngFilter, ProcessRequest,
    RequestedRegion, TiffCompression, TiffEncodeOptions, WebpEncodeOptions,
};
use crabmagick_core::vp8::encoder::encode_lossy_webp;

const ALL: Features = Features { pdf: true, avif: true };
const NONE: Features = Features { pdf: false, avif: false };

fn numbered(width: u32, height: u32) -> DecodedImage {
    let pixels = (0..width * height).flat_map(|i| [i as u8, (i * 2) as u8, 7]).collect();
    DecodedImage { pixels, width, height }
}

fn distance(q: u8) -> u32 {
    ((100.0 - q as f32) / 25.0 + 0.5).to_bits()
}

fn jpeg_encoder(plan: &JpegPlan, pixels: &[u8], w: u32, h: u32) -> Result<Vec<u8>, JpegEncodeFailure> {
    match w {
        100 => Err(JpegEncodeFailure::Start("s".to_string())),
        101 => Err(JpegEncodeFailure::Pixels("p".to_string())),
        102 => Err(JpegEncodeFailure::Finish("f".to_string())),
        _ => Ok(vec![plan.quality, w as u8, h as u8, pixels.len() as u8]),
    }
}

fn jxl_encoder(plan: &JxlPlan, pixels: &[u8], w: u32, h: u32) -> Result<Vec<u8>, String> {
    let mut out = plan.distance.unwrap_or(0).to_be_bytes().to_vec();
    out.extend_from_slice(&[plan.effort, w as u8, h as u8, pixels.len() as u8]);
    Ok(out)
}

fn encoded(image: DecodedImage, options: &EncodeOptions, features: Features) -> Result<Vec<u8>, CrabMagickError> {
    encode(image, options, features, &distance, &jpeg_encoder, &jxl_encoder)
}

// ---- options and requests ----
#[test]
fn options_for_a_quality() {
    for format in [
        OutputFormat::Jpeg,
        OutputFormat::Webp,
        OutputFormat::WebpLossless,
        OutputFormat::Png,
        OutputFormat::Jxl,
        OutputFormat::Avif,
        OutputFormat::Tiff,
        OutputFormat::Gif,
        OutputFormat::Bmp,
    ] {
        assert_eq!(EncodeOptions::with_quality(format, 33).output_format(), format);
    }
    assert_eq!(EncodeOptions::with_quality(OutputFormat::Jxl, 33).quality(), 33);
    assert_eq!(EncodeOptions::with_quality(OutputFormat::Tiff, 33).quality(), 75);
    assert_eq!(EncodeOptions::with_quality(OutputFormat::Bmp, 33).quality(), 100);
    assert_eq!(JpegEncodeOptions::default().quality, 85);
    assert_eq!(WebpEncodeOptions::default().effort, 4);
    assert_eq!(PngEncodeOptions::default().filter, PngFilter::All);
    assert_eq!(f32::from_bits(GifEncodeOptions::default().dither), 1.0);
    assert_eq!(TiffEncodeOptions::default().compression, TiffCompression::Lzw);
    assert_eq!(JxlEncodeOptions::default().effort, 7);
}

#[test]
fn requests_tell_what_they_ask_for() {
    let mut request = ProcessRequest::with_quality(OutputFormat::Jpeg, 70);
    assert_eq!(request.output_format(), OutputFormat::Jpeg);
    assert_eq!(request.quality(), 70);
    assert_eq!(request.encode_options().quality(), 70);
    assert_eq!(request.requested_region(), None);
    assert_eq!(request.requested_render_size(), None);
    request.region_width = 4;
    assert_eq!(request.requested_region(), None);
    request.region_height = 5;
    request.region_left = 1;
    assert_eq!(request.requested_region(), Some(RequestedRegion::new(1, 0, 4, 5)));
    assert_eq!(request.requested_region().unwrap().as_tuple(), (1, 0, 4, 5));
    request.output_height = 9;
    assert_eq!(request.requested_render_size(), Some((0, 9)));
}

#[test]
fn regions_within_images() {
    let image = ImageInfo { width: 10, height: u32::MAX };
    assert!(image.contains_region(RequestedRegion::new(0, 0, 10, u32::MAX)));
    assert!(!image.contains_region(RequestedRegion::new(1, 0, 10, 1)));
    assert!(!image.contains_region(RequestedRegion::new(0, 1, 1, u32::MAX)));
    assert!(!image.contains_region(RequestedRegion::new(0, 0, 0, 1)));
    assert!(!image.contains_region(RequestedRegion::new(11, 0, 1, 1)));
    assert_eq!(image.message(), "10x4294967295");
    assert_eq!(
        RequestedRegion::new(1, 20, 300, 0).message(),
        "left=1, top=20, width=300, height=0"
    );
}

#[test]
fn errors_have_texts() {
    let io = CrabMagickError::DecodeIo("gone".to_string());
    assert_eq!(io.message(), "failed to read source image: gone");
    assert_eq!(
        CrabMagickError::decode_unsupported_format("x").message(),
        "unsupported source format: x"
    );
    assert_eq!(CrabMagickError::encode_error("e").message(), "failed to encode output image: e");
}

// ---- encoding ----
#[test]
fn jpeg_plans() {
    let mut o = JpegEncodeOptions::default();
    assert_eq!(plan_jpeg(&o).chroma_subsampling, ChromaSubsampling::Cs420);
    o.quality = 90;
    assert_eq!(plan_jpeg(&o).chroma_subsampling, ChromaSubsampling::Cs444);
    o.quality = 200;
    o.progressive = true;
    o.chroma_subsampling = ChromaSubsampling::Cs422;
    let plan = plan_jpeg(&o);
    assert_eq!((plan.quality, plan.chroma_subsampling), (100, ChromaSubsampling::Cs422));
    assert!(plan.optimize_huffman);
}

#[test]
fn bundled_encoders_are_asked() {
    let jpeg = EncodeOptions::with_quality(OutputFormat::Jpeg, 250);
    assert_eq!(encoded(numbered(3, 2), &jpeg, NONE).unwrap(), vec![100, 3, 2, 18]);
    for (w, text) in [
        (100, "JPEG encoder initialization failed: s"),
        (101, "JPEG pixel upload failed: p"),
        (102, "JPEG finalization failed: f"),
    ] {
        let e = encoded(numbered(w, 1), &jpeg, NONE).unwrap_err();
        assert_eq!(e.message(), format!("failed to encode output image: {}", text));
    }
    let jxl = EncodeOptions::with_quality(OutputFormat::Jxl, 75);
    let out = encoded(numbered(3, 2), &jxl, NONE).unwrap();
    assert_eq!(&out[..4], &1.5f32.to_bits().to_be_bytes());
    assert_eq!(&out[4..], &[7, 3, 2, 18]);
    let mut given = JxlEncodeOptions::default();
    given.distance = Some(2.0f32.to_bits());
    let out = encoded(numbered(3, 2), &EncodeOptions::Jxl(given), NONE).unwrap();
    assert_eq!(&out[..4], &2.0f32.to_bits().to_be_bytes());
}

#[test]
fn webp_output() {
    let image = numbered(20, 10);
    let lossy = EncodeOptions::with_quality(OutputFormat::Webp, 120);
    let file = encoded(image.clone(), &lossy, NONE).unwrap();
    let rgb = crabmagick_core::raster::RgbImage { width: 20, height: 10, data: image.pixels.clone() };
    assert_eq!(file, encode_lossy_webp(&rgb, 100).unwrap());
    let lossless = EncodeOptions::with_quality(OutputFormat::WebpLossless, 80);
    let file = encoded(image.clone(), &lossless, NONE).unwrap();
    let back = image::load_from_memory(&file).unwrap().to_rgb8();
    assert_eq!(back.into_raw(), image.pixels);
    let short = DecodedImage { pixels: vec![1, 2], width: 1, height: 1 };
    for options in [&lossy, &lossless] {
        let e = encoded(short.clone(), options, NONE).unwrap_err();
        assert_eq!(
            e.message(),
            "failed to encode output image: WebP encoding received an invalid RGB buffer shape"
        );
    }
    let e = encoded(DecodedImage { pixels: vec![], width: 0, height: 1 }, &lossless, NONE).unwrap_err();
    assert_eq!(e.message(), "failed to encode output image: WebP encoding failed: Invalid dimensions");
    let e = encoded(DecodedImage { pixels: vec![], width: 0, height: 1 }, &lossy, NONE).unwrap_err();
    assert_eq!(
        e.message(),
        "failed to encode output image: WebP encoding failed: VP8 encoder does not support empty images"
    );
}

#[test]
fn outside_encoders_round_trip() {
    let image = numbered(9, 4);
    for format in [OutputFormat::Png, OutputFormat::Bmp, OutputFormat::Gif, OutputFormat::Tiff] {
        let options = EncodeOptions::with_quality(format, 1);
        assert!(can_encode(&image, &options, NONE));
        let file = encoded(image.clone(), &options, NONE).unwrap();
        let back = image::load_from_memory(&file).unwrap().to_rgb8();
        assert_eq!(back.into_raw(), image.pixels, "{:?}", format);
    }
    for compression in
        [TiffCompression::Uncompressed, TiffCompression::Deflate, TiffCompression::Packbits]
    {
        let mut o = TiffEncodeOptions::default();
        o.compression = compression;
        let file = encoded(image.clone(), &EncodeOptions::Tiff(o), NONE).unwrap();
        let back = image::load_from_memory(&file).unwrap().to_rgb8();
        assert_eq!(back.into_raw(), image.pixels);
    }
    let mut o = TiffEncodeOptions::default();
    o.compression = TiffCompression::Jpeg;
    let e = encoded(image, &EncodeOptions::Tiff(o), NONE).unwrap_err();
    assert_eq!(
        e.message(),
        "failed to encode output image: TIFF encoding failed: JPEG compression is unavailable"
    );
    let e = encoded(
        DecodedImage { pixels: vec![], width: 0, height: 0 },
        &EncodeOptions::with_quality(OutputFormat::Png, 1),
        NONE,
    )
    .unwrap_err();
    assert!(e.message().starts_with("failed to encode output image: PNG encoding failed: "));
    let wide = DecodedImage { pixels: vec![0; 3 * 65536], width: 65536, height: 1 };
    let gif = encoded(wide, &EncodeOptions::with_quality(OutputFormat::Gif, 1), NONE).unwrap_err();
    assert!(gif.message().starts_with("failed to encode output image: GIF encoding failed: "));
    let short = DecodedImage { pixels: vec![1, 2], width: 1, height: 1 };
    assert!(!can_encode(&short, &EncodeOptions::Bmp, NONE));
}

#[test]
fn avif_needs_its_feature() {
    let options = EncodeOptions::with_quality(OutputFormat::Avif, 0);
    let e = encoded(numbered(4, 4), &options, NONE).unwrap_err();
    assert_eq!(
        e.message(),
        "failed to encode output image: AVIF output is unavailable in this build; enable the `avif` feature"
    );
    let file = encoded(numbered(4, 4), &options, ALL).unwrap();
    assert_eq!(&file[4..12], b"ftypavif");
    let empty = DecodedImage { pixels: vec![], width: 0, height: 4 };
    assert!(!can_encode(&empty, &options, ALL));
    assert!(can_encode(&empty, &options, NONE));
}

// ---- sources ----
fn png(image: &DecodedImage) -> Vec<u8> {
    encoded(image.clone(), &EncodeOptions::with_quality(OutputFormat::Png, 1), NONE).unwrap()
}

fn read(path: &str) -> Result<Vec<u8>, String> {
    match path {
        "png" => Ok(png(&numbered(6, 4))),
        "jxl" => Ok(vec![0xFF, 0x0A, 1, 2, 3]),
        "jpeg" => Ok(vec![0xFF, 0xD8, 0xFF, 9]),
        "webp" => Ok(b"RIFF....WEBP".to_vec()),
        "pdf" => Ok(b"%PDF-1.4".to_vec()),
        "avif" => Ok(b"....ftypavif".to_vec()),
        "svg" => Ok(b"<svg xmlns='http://www.w3.org/2000/svg' width='8' height='4'/>".to_vec()),
        "tiff" => {
            let options = EncodeOptions::with_quality(OutputFormat::Tiff, 1);
            Ok(encoded(numbered(3, 3), &options, NONE).unwrap())
        }
        "odd" => Ok(b"odd".to_vec()),
        _ => Err("no such file".to_string()),
    }
}

fn jxl_header(bytes: &[u8]) -> Result<JxlHeader, String> {
    if bytes.len() < 5 {
        return Err("short".to_string());
    }
    Ok(JxlHeader { width: 4, height: 2, format: PixelFormat::Gray })
}

fn jxl_render(_: &[u8], region: Option<(u32, u32, u32, u32)>) -> Result<Vec<JxlPlane>, String> {
    let (l, t, w, h) = region.unwrap_or((0, 0, 4, 2));
    if (l, t, w, h) == (3, 1, 1, 1) {
        return Ok(Vec::new());
    }
    if (l, t, w, h) == (0, 1, 1, 1) {
        return Err("render".to_string());
    }
    let data = (t..t + h).flat_map(|y| (l..l + w).map(move |x| 10 * y + x)).collect();
    Ok(vec![JxlPlane { width: w, height: h, data }])
}

fn to_byte(bits: u32) -> u8 {
    bits as u8
}

fn jpeg(bytes: &[u8]) -> Result<JpegPixels, JpegFailure> {
    match bytes.get(3) {
        Some(9) => Ok(JpegPixels { pixels: vec![5; 12], dimensions: Some((2, 2)) }),
        _ => Err(JpegFailure::Header("h".to_string())),
    }
}

fn webp(_: &[u8]) -> Result<WebpPixels, WebpFailure> {
    Ok(WebpPixels { data: vec![1, 2, 3, 4, 5, 6, 7, 8], width: 2, height: 1, has_alpha: true })
}

fn svg(_: &resvg::usvg::Tree, job: &SvgJob) -> Option<Vec<u8>> {
    Some([9, 8, 7, 255].repeat((job.width * job.height) as usize))
}

fn pdf(_: &[u8], job: &PdfJob) -> Result<(Vec<u8>, u32, u32), PdfFailure> {
    Ok((vec![job.page as u8; 3], 1, 1))
}

#[test]
fn sources_of_all_formats() {
    let codecs = Codecs { jxl_header, jxl_render, to_byte, jpeg, webp, svg, pdf, features: ALL };
    let mut cache = DecodedImageCache::new(0);
    let mut get = |path: &str, region, square, page, size| {
        decode_any_with_options(path, region, square, page, size, &mut cache, &read, &codecs)
    };
    assert_eq!(get("png", None, false, 0, None).unwrap().pixels, numbered(6, 4).pixels);
    let cut = get("png", Some((1, 1, 2, 2)), false, 0, None).unwrap();
    assert_eq!((cut.width, cut.pixels[0]), (2, 7));
    assert_eq!(get("png", None, true, 0, None).unwrap().width, 4);
    assert_eq!(get("jxl", None, false, 0, None).unwrap().pixels.len(), 24);
    let square = get("jxl", None, true, 0, None).unwrap();
    assert_eq!((square.width, square.height, square.pixels[0]), (2, 2, 1));
    let part = get("jxl", Some((2, 1, 2, 1)), false, 0, None).unwrap();
    assert_eq!(part.pixels, vec![12, 12, 12, 13, 13, 13]);
    assert!(matches!(
        get("jxl", Some((2, 1, 3, 1)), false, 0, None),
        Err(CrabMagickError::RegionOutOfBounds { .. })
    ));
    assert_eq!(get("jpeg", None, false, 0, None).unwrap().pixels, vec![5; 12]);
    assert_eq!(get("webp", None, false, 0, None).unwrap().pixels, vec![1, 2, 3, 5, 6, 7]);
    assert_eq!(get("tiff", None, false, 0, None).unwrap().pixels, numbered(3, 3).pixels);
    assert_eq!(get("svg", None, false, 0, Some((4, 0))).unwrap().height, 2);
    assert_eq!(get("pdf", None, false, 6, None).unwrap().pixels, vec![6; 3]);
    assert!(matches!(get("avif", None, false, 0, None), Err(CrabMagickError::DecodeMalformed(_))));
    assert_eq!(
        get("odd", None, false, 0, None).unwrap_err().message(),
        "unsupported source format: file signature did not match any supported image format"
    );
    assert_eq!(
        get("gone", None, false, 0, None).unwrap_err().message(),
        "failed to read source image: no such file"
    );
}

#[test]
fn builds_without_features_say_so() {
    let codecs = Codecs { jxl_header, jxl_render, to_byte, jpeg, webp, svg, pdf, features: NONE };
    let mut cache = DecodedImageCache::new(0);
    for (path, name) in [("pdf", "PDF"), ("avif", "AVIF")] {
        let e = decode_any(path, None, false, &mut cache, &read, &codecs).unwrap_err();
        let text = format!(
            "unsupported source format: {} decoding is unavailable in this build; enable the `{}` feature",
            name, path
        );
        assert_eq!(e.message(), text);
        assert_eq!(decode_any_info(path, 0, &read, &codecs).unwrap_err().message(), text);
    }
}

#[test]
fn sizes_of_all_formats() {
    let codecs = Codecs { jxl_header, jxl_render, to_byte, jpeg, webp, svg, pdf, features: ALL };
    let size = |path: &str, page| decode_any_info(path, page, &read, &codecs).map(|i| (i.width, i.height));
    assert_eq!(size("png", 0).unwrap(), (6, 4));
    assert_eq!(size("jxl", 0).unwrap(), (4, 2));
    assert_eq!(size("svg", 0).unwrap(), (8, 4));
    assert_eq!(size("pdf", 0).unwrap(), (1, 1));
    assert_eq!(size("tiff", 0).unwrap(), (3, 3));
    assert!(size("tiff", 1).is_err());
    assert!(size("odd", 0).is_err());
    assert_eq!(get_info("png", &read, &codecs).unwrap(), ImageInfo { width: 6, height: 4 });
    assert_eq!(CrabMagickProcessor::get_info("jxl", &read, &codecs).unwrap().width, 4);
}

#[test]
fn jxl_by_path() {
    assert_eq!(decode_jxl("jxl", &read, &jxl_header, &jxl_render, &to_byte).unwrap().width, 4);
    assert_eq!(decode_jxl_info("jxl", &read, &jxl_header).unwrap().height, 2);
    assert!(decode_jxl_info("gone", &read, &jxl_header).is_err());
    let region = |l, t, w, h| {
        decode_jxl_region("jxl", l, t, w, h, &read, &jxl_header, &jxl_render, &to_byte)
    };
    assert_eq!(region(0, 0, 1, 1).unwrap().pixels, vec![0, 0, 0]);
    assert_eq!(
        region(3, 1, 1, 1).unwrap_err().message(),
        "malformed source image: JPEG XL decode produced no image planes for the requested region"
    );
    assert_eq!(
        region(0, 1, 1, 1).unwrap_err().message(),
        "malformed source image: JPEG XL region rendering failed: render"
    );
    let color = |_: &[u8]| -> Result<JxlHeader, String> {
        Ok(JxlHeader { width: 4, height: 2, format: PixelFormat::Rgb })
    };
    assert_eq!(
        decode_jxl("jxl", &read, &color, &jxl_render, &to_byte).unwrap_err().message(),
        "malformed source image: JPEG XL decode produced unusable image planes"
    );
    let bad = |_: &[u8]| -> Result<JxlHeader, String> { Err("no".to_string()) };
    assert_eq!(
        decode_jxl("jxl", &read, &bad, &jxl_render, &to_byte).unwrap_err().message(),
        "malformed source image: JPEG XL header parsing failed: no"
    );
    let stuck = |_: &[u8], _: Option<(u32, u32, u32, u32)>| -> Result<Vec<JxlPlane>, String> {
        Err("stuck".to_string())
    };
    assert_eq!(
        decode_jxl("jxl", &read, &jxl_header, &stuck, &to_byte).unwrap_err().message(),
        "malformed source image: JPEG XL frame rendering failed: stuck"
    );
}

#[test]
fn requests_are_processed() {
    let codecs = Codecs { jxl_header, jxl_render, to_byte, jpeg, webp, svg, pdf, features: ALL };
    let encoders = Encoders { distance, jpeg: jpeg_encoder, jxl: jxl_encoder };
    let mut cache = DecodedImageCache::new(0);
    init(&mut cache, 16, 0);
    // A JPEG XL source that stays as it is.
    let request = ProcessRequest::with_quality(OutputFormat::Jxl, 90);
    let out = process_image("jxl", request.clone(), &mut cache, &read, &codecs, &encoders).unwrap();
    assert_eq!(out, read("jxl").unwrap());
    assert!(cache.get("jxl", 0).is_none());
    // Another source is encoded, and kept.
    let out = process_image("png", request, &mut cache, &read, &codecs, &encoders).unwrap();
    assert_eq!(&out[5..], &[6, 4, 72]);
    assert!(cache.get("png", 0).is_some());
    let gone = |_: &str| -> Result<Vec<u8>, String> { Err("gone".to_string()) };
    let request = ProcessRequest::with_quality(OutputFormat::Png, 90);
    let cached = process_image("png", request.clone(), &mut cache, &gone, &codecs, &encoders).unwrap();
    assert_eq!(cached, png(&numbered(6, 4)));
    // Cut, resize, rotate.
    let mut request = request;
    request.region_left = 1;
    request.region_width = 4;
    request.region_height = 2;
    request.output_width = 2;
    request.rotation = 90;
    let out = CrabMagickProcessor::process_image(
        "png",
        request.clone(),
        &mut cache,
        &read,
        &codecs,
        &encoders,
    )
    .unwrap();
    let back = image::load_from_memory(&out).unwrap();
    assert_eq!((back.width(), back.height()), (1, 2));
    request.region_left = 5;
    let e = process_image("png", request, &mut cache, &read, &codecs, &encoders).unwrap_err();
    assert!(matches!(e, CrabMagickError::RegionOutOfBounds { .. }));
    CrabMagickProcessor::init(&mut cache, 16, 0);
    assert!(cache.get("png", 0).is_none());
}

#[test]
fn unsound_images_are_refused() {
    let short = |_: &[u8]| -> Result<WebpPixels, WebpFailure> {
        Ok(WebpPixels { data: vec![1, 2, 3], width: 2, height: 2, has_alpha: false })
    };
    let codecs = Codecs { jxl_header, jxl_render, to_byte, jpeg, webp: short, svg, pdf, features: ALL };
    let encoders = Encoders { distance, jpeg: jpeg_encoder, jxl: jxl_encoder };
    let mut cache = DecodedImageCache::new(0);
    let text = "malformed source image: decoded pixels do not match the image dimensions";
    let mut request = ProcessRequest::with_quality(OutputFormat::Png, 90);
    let e = process_image("webp", request.clone(), &mut cache, &read, &codecs, &encoders).unwrap_err();
    assert_eq!(e.message(), text);
    request.rotation = 180;
    let e = process_image("webp", request.clone(), &mut cache, &read, &codecs, &encoders).unwrap_err();
    assert_eq!(e.message(), text);
    request.output_width = 1;
    let e = process_image("webp", request.clone(), &mut cache, &read, &codecs, &encoders).unwrap_err();
    assert_eq!(e.message(), text);
    request.square_region = true;
    request.output_width = 0;
    request.region_width = 1;
    request.region_height = 2;
    let e = process_image("webp", request, &mut cache, &read, &codecs, &encoders).unwrap_err();
    assert_eq!(e.message(), "malformed source image: decoded pixels do not cover the requested region");
}

#[test]
fn jpeg_files_are_transcoded() {
    let parse = |bytes: &[u8]| -> Result<JpegData, String> {
        if bytes.len() < 4 {
            return Err("short".to_string());
        }
        Ok(JpegData {
            width: 8,
            height: 8,
            is_progressive: false,
            quant: Vec::new(),
            components: Vec::new(),
            component_type: JpegComponentType::Custom,
            icc: None,
        })
    };
    let code = |_: &RecodePlan| -> Result<(Vec<u8>, usize), RecodeError> { Ok((vec![1], 0)) };
    let extract = |_: &JpegData| SideData { jbrd: Ok(Vec::new()), exif: None, xmp: None };
    let text = |path: &str| match transcode_jpeg_to_jxl(path, &read, &parse, code, extract) {
        Err(e) => e.message(),
        Ok(_) => String::new(),
    };
    assert_eq!(text("gone"), "failed to read source image: no such file");
    assert_eq!(text("odd"), "malformed source image: JPEG parsing failed: short");
    let uncovered = |_: &[u8]| -> Result<JpegData, String> {
        Ok(JpegData {
            width: 0,
            height: 8,
            is_progressive: false,
            quant: Vec::new(),
            components: Vec::new(),
            component_type: JpegComponentType::Custom,
            icc: None,
        })
    };
    let e = transcode_jpeg_to_jxl("jpeg", &read, &uncovered, code, extract).err().unwrap();
    assert_eq!(e.message(), "malformed source image: JPEG components do not match its dimensions");
    assert_eq!(text("jpeg"), "failed to encode output image: JPEG reencoding requires 1 or 3 components, got 0");
}

#[test]
fn written_files_are_told_by_their_first_bytes() {
    for (format, expected) in [
        (OutputFormat::Webp, SourceFormat::Webp),
        (OutputFormat::WebpLossless, SourceFormat::Webp),
        (OutputFormat::Png, SourceFormat::Png),
        (OutputFormat::Avif, SourceFormat::Avif),
        (OutputFormat::Tiff, SourceFormat::Tiff),
        (OutputFormat::Gif, SourceFormat::Gif),
        (OutputFormat::Bmp, SourceFormat::Bmp),
    ] {
        let file = encoded(numbered(5, 5), &EncodeOptions::with_quality(format, 60), ALL).unwrap();
        assert_eq!(detect_format(&file), expected);
    }
}

// Rows and columns of all sizes, with runs and with changes.
fn striped(width: u32, height: u32) -> DecodedImage {
    let count = 3 * width as usize * height as usize;
    let pixels = (0..count).map(|i| if i % 700 < 300 { 9 } else { (i * i / 7) as u8 }).collect();
    DecodedImage { pixels, width, height }
}

#[test]
fn lossless_files_are_read_back() {
    for (width, height) in [(1, 1), (5, 7), (300, 200), (1, 0xFFFF), (0xFFFF, 1), (1000, 2000)] {
        let image = striped(width, height);
        for format in [OutputFormat::Png, OutputFormat::Bmp] {
            let file = encoded(striped(width, height), &EncodeOptions::with_quality(format, 60), ALL);
            let read = decode_via_image(&file.unwrap()).unwrap();
            assert_eq!((read.width, read.height), (width, height));
            assert!(read.pixels == image.pixels);
        }
        for compression in [
            TiffCompression::Uncompressed,
            TiffCompression::Lzw,
            TiffCompression::Deflate,
            TiffCompression::Packbits,
        ] {
            let mut options = TiffEncodeOptions::default();
            options.compression = compression;
            let file = encoded(striped(width, height), &EncodeOptions::Tiff(options), ALL);
            let read = decode_tiff_page(&file.unwrap(), 0).unwrap();
            assert_eq!((read.width, read.height), (width, height));
            assert!(read.pixels == image.pixels);
        }
    }
}

#[test]
fn processors_can_be_made() {
    let _ = CrabMagickProcessor::default();
}

#[test]
fn png_settings_take_effect() {
    let plain = PngEncodeOptions::default();
    let file = |o: PngEncodeOptions| encoded(striped(60, 40), &EncodeOptions::Png(o), ALL).unwrap();
    let stored = file(PngEncodeOptions { compression: 0, ..plain });
    let packed = file(PngEncodeOptions { compression: 9, ..plain });
    assert!(stored.len() > 60 * 40 * 3 && packed.len() < stored.len());
    assert_eq!(file(PngEncodeOptions { compression: 200, ..plain }), packed);
    assert_ne!(
        file(PngEncodeOptions { filter: PngFilter::Sub, ..plain }),
        file(PngEncodeOptions { filter: PngFilter::NoFilter, ..plain })
    );
    // The depth stands behind the size in the header.
    assert_eq!(file(plain)[24], 8);
    assert_eq!(file(PngEncodeOptions { bitdepth: 16, ..plain })[24], 16);
    for filter in [
        PngFilter::NoFilter,
        PngFilter::Sub,
        PngFilter::Up,
        PngFilter::Avg,
        PngFilter::Paeth,
        PngFilter::All,
    ] {
        for (compression, bitdepth) in [(0, 8), (6, 8), (9, 8), (0, 16), (6, 16)] {
            let o = PngEncodeOptions { compression, filter, bitdepth, ..plain };
            let all: Vec<u8> = (0..768).map(|i| (i / 3) as u8).collect();
            let image = DecodedImage { pixels: all.clone(), width: 16, height: 16 };
            let written = encoded(image, &EncodeOptions::Png(o), ALL).unwrap();
            assert_eq!(decode_via_image(&written).unwrap().pixels, all);
        }
    }
}

#[test]
fn efforts_are_speeds() {
    assert_eq!([0, 1, 7, 10, 99].map(speed_of_gif), [28, 28, 10, 1, 1]);
    assert_eq!([0, 1, 4, 9, 10].map(speed_of_avif), [9, 9, 6, 1, 1]);
    let gif = |effort: u8| {
        let o = GifEncodeOptions { effort, ..GifEncodeOptions::default() };
        encoded(striped(60, 40), &EncodeOptions::Gif(o), ALL).unwrap()
    };
    assert_eq!(detect_format(&gif(1)), SourceFormat::Gif);
    assert_eq!(detect_format(&gif(10)), SourceFormat::Gif);
}
