use crabmagick_core::jp2;
use crabmagick_core::jpeg::color_convert::{
    rgb_shuffle_mask, ycbcr_to_rgb_avx512, ycbcr_to_rgba_avx512,
};
use crabmagick_core::pipeline::bundled::{
    finish_jpeg_decode, finish_pdf, finish_webp_decode, plan_pdf, JpegFailure, JpegPixels, PdfFailure,
    WebpFailure, WebpPixels,
};
use crabmagick_core::pipeline::cache::{init_decoded_image_cache, DecodedImageCache};
use crabmagick_core::pipeline::codecs::{decode_info_via_image, decode_via_image};
use crabmagick_core::pipeline::format::{cacheable_full_decode, detect_format, SourceFormat};
use crabmagick_core::pipeline::image::{
    apply_post_decode_ops, apply_region, can_apply_post_decode_ops, can_rotate, rotate_rgb,
    square_crop, validate_requested_region, DecodedImage,
};
use crabmagick_core::pipeline::jxl_options::{
    encode_jxl_rgb, plan_jxl, EncoderMode, JxlEncodeOptions, JxlPlan, JxlSetting, ONE_BITS,
};
use crabmagick_core::pipeline::planar::{planar_to_rgb, PixelFormat};
use crabmagick_core::pipeline::resize::{can_resize, resize_rgb, resolve_output_size};
use crabmagick_core::pipeline::svg::{decode_svg, decode_svg_info, surface_to_rgb, SvgJob};
use crabmagick_core::pipeline::tiff::{decode_tiff_page, tiff_to_rgb, TiffColor, TiffSamples};
use crabmagick_core::request::{CrabMagickError, ImageInfo, RequestedRegion};

fn numbered(width: u32, height: u32) -> DecodedImage {
    let pixels = (0..width * height).flat_map(|i| [i as u8, (i * 2) as u8, 7]).collect();
    DecodedImage { pixels, width, height }
}

fn at(image: &DecodedImage, x: u32, y: u32) -> u8 {
    image.pixels[3 * (y * image.width + x) as usize]
}

// ---- formats ----
#[test]
fn formats_are_told_by_their_first_bytes() {
    let cases: Vec<(&[u8], SourceFormat)> = vec![
        (b"\xFF\x0A", SourceFormat::Jxl),
        (b"\x00\x00\x00\x0CJXL \x0D\x0A", SourceFormat::Jxl),
        (b"\xFF\xD8\xFF\xE0", SourceFormat::Jpeg),
        (b"\x89PNG\r\n", SourceFormat::Png),
        (b"RIFF\x01\x02\x03\x04WEBPVP8 ", SourceFormat::Webp),
        (b"RIFF\x01\x02\x03\x04WAVE", SourceFormat::Unknown),
        (b"II*\x00", SourceFormat::Tiff),
        (b"MM\x00*", SourceFormat::Tiff),
        (b"GIF89a", SourceFormat::Gif),
        (b"BM", SourceFormat::Bmp),
        (b"%PDF-1.7", SourceFormat::Pdf),
        (b"\x00\x00\x00\x20ftypavif", SourceFormat::Avif),
        (b"\x00\x00\x00\x20ftypavis", SourceFormat::Avif),
        (b"\x00\x00\x00\x20ftypheic", SourceFormat::Unknown),
        (b"<svg xmlns=''/>", SourceFormat::Svg),
        (b"\xEF\xBB\xBF \n<SVG/>", SourceFormat::Svg),
        (b"<?xml version='1.0'?><svg/>", SourceFormat::Svg),
        (b"<?xml version='1.0'?><html/>", SourceFormat::Unknown),
        (b"", SourceFormat::Unknown),
        (b"\xFF", SourceFormat::Unknown),
    ];
    for (bytes, format) in cases {
        assert_eq!(detect_format(bytes), format, "{:?}", bytes);
    }
    let mut late = b"<?xml?>".to_vec();
    late.extend(vec![b' '; 1020]);
    late.extend_from_slice(b"<svg/>");
    assert_eq!(detect_format(&late), SourceFormat::Unknown);
}

#[test]
fn only_whole_images_of_some_formats_are_kept() {
    assert!(cacheable_full_decode(SourceFormat::Jxl, None, false));
    assert!(!cacheable_full_decode(SourceFormat::Jxl, None, true));
    assert!(!cacheable_full_decode(SourceFormat::Jxl, Some((0, 0, 1, 1)), false));
    assert!(!cacheable_full_decode(SourceFormat::Svg, None, false));
    assert!(!cacheable_full_decode(SourceFormat::Pdf, None, false));
}

// ---- cropping ----
#[test]
fn crops_take_their_rectangle() {
    let image = numbered(5, 4);
    let cropped = apply_region(image.clone(), RequestedRegion::new(1, 2, 3, 2));
    assert_eq!((cropped.width, cropped.height), (3, 2));
    for y in 0..2 {
        for x in 0..3 {
            assert_eq!(at(&cropped, x, y), at(&image, x + 1, y + 2));
        }
    }
    let whole = apply_region(image.clone(), RequestedRegion::new(0, 0, 5, 4));
    assert_eq!(whole.pixels, image.pixels);
    let twice = apply_region(cropped, RequestedRegion::new(1, 1, 2, 1));
    let once = apply_region(image, RequestedRegion::new(2, 3, 2, 1));
    assert_eq!(twice.pixels, once.pixels);
}

#[test]
fn squares_are_centered() {
    let wide = square_crop(numbered(7, 3));
    assert_eq!((wide.width, wide.height), (3, 3));
    assert_eq!(at(&wide, 0, 0), 2);
    let high = square_crop(numbered(2, 5));
    assert_eq!(at(&high, 0, 0), 2);
}

#[test]
fn regions_are_validated() {
    let info = ImageInfo { width: 10, height: 10 };
    assert!(validate_requested_region(RequestedRegion::new(5, 5, 5, 5), info).is_ok());
    match validate_requested_region(RequestedRegion::new(5, 5, 6, 5), info) {
        Err(CrabMagickError::RegionOutOfBounds { region, image }) => {
            assert_eq!(region, RequestedRegion::new(5, 5, 6, 5));
            assert_eq!(image, info);
        }
        _ => panic!("region accepted"),
    }
    let empty = validate_requested_region(RequestedRegion::new(0, 0, 0, 5), info).unwrap_err();
    assert_eq!(
        empty.message(),
        "malformed source image: requested region width and height must both be greater than zero"
    );
    let r = apply_post_decode_ops(numbered(4, 4), Some((3, 3, 2, 1)), false).unwrap_err();
    assert_eq!(
        r.message(),
        "requested region left=3, top=3, width=2, height=1 lies outside image bounds 4x4"
    );
    assert_eq!(apply_post_decode_ops(numbered(4, 4), None, false).unwrap().width, 4);
    assert_eq!(apply_post_decode_ops(numbered(4, 2), None, true).unwrap().width, 2);
    let short = DecodedImage { pixels: vec![0; 5], width: 4, height: 4 };
    assert!(!can_apply_post_decode_ops(&short, Some((0, 0, 2, 2)), false));
    assert!(can_apply_post_decode_ops(&short, None, false));
}

// ---- rotating ----
#[test]
fn rotations_move_pixels_clockwise() {
    let image = numbered(3, 2);
    let right = rotate_rgb(image.clone(), 90);
    assert_eq!((right.width, right.height), (2, 3));
    let order = |i: &DecodedImage| i.pixels.chunks_exact(3).map(|p| p[0]).collect::<Vec<u8>>();
    assert_eq!(order(&right), vec![3, 0, 4, 1, 5, 2]);
    assert_eq!(order(&rotate_rgb(image.clone(), 180)), vec![5, 4, 3, 2, 1, 0]);
    assert_eq!(order(&rotate_rgb(image.clone(), 270)), vec![2, 5, 1, 4, 0, 3]);
    assert_eq!(order(&rotate_rgb(image.clone(), 45)), order(&image));
    assert_eq!(order(&rotate_rgb(image.clone(), 450)), order(&right));
}

#[test]
fn rotations_add_up() {
    let image = numbered(5, 3);
    for a in [0u16, 90, 180, 270] {
        for b in [0u16, 90, 180, 270] {
            let twice = rotate_rgb(rotate_rgb(image.clone(), a), b);
            let once = rotate_rgb(image.clone(), a + b);
            assert_eq!((twice.width, twice.height), (once.width, once.height));
            assert_eq!(twice.pixels, once.pixels);
        }
    }
    let empty = DecodedImage { pixels: Vec::new(), width: 0, height: 3 };
    assert!(!can_rotate(&empty, 180));
    assert!(can_rotate(&empty, 90));
    assert!(can_rotate(&empty, 0));
}

// ---- resizing ----
#[test]
fn sizes_keep_the_aspect_ratio() {
    assert_eq!(resolve_output_size(100, 50, 0, 0), (100, 50));
    assert_eq!(resolve_output_size(100, 50, 30, 0), (30, 15));
    assert_eq!(resolve_output_size(100, 50, 0, 30), (60, 30));
    assert_eq!(resolve_output_size(100, 50, 7, 9), (7, 9));
    assert_eq!(resolve_output_size(1000, 1, 10, 0), (10, 1));
    assert_eq!(resolve_output_size(0, 5, 3, 0), (3, 15));
    assert_eq!(resolve_output_size(1, 1 << 31, 2, 0), (2, 0));
}

#[test]
fn resizing_changes_the_size() {
    let image = numbered(8, 8);
    let same = resize_rgb(image.clone(), 8, 0);
    assert_eq!(same.pixels, image.pixels);
    let small = resize_rgb(image.clone(), 2, 0);
    assert_eq!((small.width, small.height, small.pixels.len()), (2, 2, 12));
    let flat = DecodedImage { pixels: vec![90; 3 * 30], width: 6, height: 5 };
    for (w, h) in [(3, 2), (12, 11), (1, 0)] {
        let r = resize_rgb(flat.clone(), w, h);
        assert!(r.pixels.iter().all(|p| *p == 90));
        assert_eq!(r.pixels.len(), 3 * (r.width * r.height) as usize);
    }
    let left_right = DecodedImage { pixels: vec![0, 0, 0, 200, 200, 200], width: 2, height: 1 };
    let up = resize_rgb(left_right, 8, 1);
    assert!(up.pixels[0] < 30 && up.pixels[21] > 170);
    let empty = DecodedImage { pixels: Vec::new(), width: 0, height: 0 };
    assert_eq!(resize_rgb(empty, 5, 5).width, 0);
    let short = DecodedImage { pixels: vec![0; 5], width: 4, height: 4 };
    assert!(!can_resize(&short, 2, 2));
}

// ---- cache ----
#[test]
fn cached_images_are_found_again() {
    let mut cache = DecodedImageCache::new(1000);
    assert!(cache.get("a", 0).is_none());
    cache.put("a", 0, &numbered(4, 4));
    let found = cache.get("a", 0).unwrap();
    assert_eq!(found.pixels, numbered(4, 4).pixels);
    assert!(cache.get("a", 1).is_none());
    assert!(cache.get("b", 0).is_none());
}

#[test]
fn caches_stay_within_their_limit() {
    // One place, as the limit is below the size of an average image.
    let mut cache = DecodedImageCache::new(100);
    cache.put("a", 0, &numbered(4, 4));
    cache.put("b", 0, &numbered(4, 4));
    assert!(cache.get("a", 0).is_none());
    let mut off = DecodedImageCache::new(0);
    off.put("a", 0, &numbered(1, 1));
    assert!(off.get("a", 0).is_none());
    let mut small = DecodedImageCache::new(47);
    small.put("a", 0, &numbered(4, 4));
    assert!(small.get("a", 0).is_none());
}

#[test]
fn the_image_used_longest_ago_goes_first() {
    let mb = |n: u32| DecodedImage { pixels: vec![n as u8; 3 * 1024 * 1024], width: 1024, height: 1024 };
    let mut cache = DecodedImageCache::new(0);
    init_decoded_image_cache(&mut cache, 12);
    for n in 0..3 {
        cache.put("p", n, &mb(n));
    }
    assert!(cache.get("p", 0).is_some());
    cache.put("p", 3, &mb(3));
    // Three places: page 1 was used longest ago.
    assert!(cache.get("p", 1).is_none());
    assert!(cache.get("p", 0).is_some());
    cache.put("p", 0, &mb(9));
    assert_eq!(cache.get("p", 0).unwrap().pixels[0], 9);
    init_decoded_image_cache(&mut cache, 12);
    assert!(cache.get("p", 0).is_none());
}

// ---- TIFF ----
fn tiff_file(pages: &[(u32, u32, u8)]) -> Vec<u8> {
    let mut out = std::io::Cursor::new(Vec::new());
    let mut encoder = tiff::encoder::TiffEncoder::new(&mut out).unwrap();
    for (w, h, v) in pages {
        let data = vec![*v; (3 * w * h) as usize];
        encoder.write_image::<tiff::encoder::colortype::RGB8>(*w, *h, &data).unwrap();
    }
    out.into_inner()
}

#[test]
fn tiff_pages_are_found() {
    let file = tiff_file(&[(2, 3, 10), (4, 1, 20)]);
    let first = decode_tiff_page(&file, 0).unwrap();
    assert_eq!((first.width, first.height), (2, 3));
    assert_eq!(first.pixels, vec![10; 18]);
    let second = decode_tiff_page(&file, 1).unwrap();
    assert_eq!((second.width, second.height), (4, 1));
    assert_eq!(second.pixels, vec![20; 12]);
    let e = decode_tiff_page(&file, 2).unwrap_err();
    assert_eq!(
        e.message(),
        "malformed source image: TIFF page index 2 is out of range for this file"
    );
    let e = decode_tiff_page(b"nonsense", 0).unwrap_err();
    assert!(e.message().starts_with("malformed source image: TIFF decoder initialization failed: "));
}

#[test]
fn tiff_samples_become_rgb() {
    let rgb = |s, c| tiff_to_rgb(s, c, 1, 1).map(|i| i.pixels);
    assert_eq!(rgb(TiffSamples::U8(vec![5, 6]), TiffColor::Gray(8)).unwrap(), vec![5, 5, 5, 6, 6, 6]);
    assert_eq!(rgb(TiffSamples::U16(vec![0x1234]), TiffColor::Gray(16)).unwrap(), vec![0x12; 3]);
    assert_eq!(rgb(TiffSamples::U8(vec![1, 2, 3]), TiffColor::Rgb(8)).unwrap(), vec![1, 2, 3]);
    assert_eq!(
        rgb(TiffSamples::U16(vec![0x100, 0x2FF, 0x3AB]), TiffColor::Rgb(16)).unwrap(),
        vec![1, 2, 3]
    );
    assert_eq!(
        rgb(TiffSamples::U8(vec![1, 2, 3, 4, 5, 6, 7, 8, 9]), TiffColor::Rgba(8)).unwrap(),
        vec![1, 2, 3, 5, 6, 7]
    );
    assert_eq!(
        rgb(TiffSamples::U16(vec![0x100, 0x200, 0x300, 0x400]), TiffColor::Rgba(16)).unwrap(),
        vec![1, 2, 3]
    );
    for (s, c) in [
        (TiffSamples::U8(vec![1]), TiffColor::Gray(16)),
        (TiffSamples::Other, TiffColor::Rgb(8)),
        (TiffSamples::U8(vec![1]), TiffColor::Other),
    ] {
        assert!(matches!(tiff_to_rgb(s, c, 1, 1), Err(CrabMagickError::DecodeUnsupportedFormat(_))));
    }
}

// ---- SVG ----
const SVG: &[u8] = b"<svg xmlns='http://www.w3.org/2000/svg' width='40' height='20'/>";

#[test]
fn svg_sizes() {
    let info = decode_svg_info(SVG).unwrap();
    assert_eq!(info, ImageInfo { width: 40, height: 20 });
    assert!(decode_svg_info(b"<svg").unwrap_err().message().contains("SVG parsing failed: "));
    let render = |_: &resvg::usvg::Tree, job: &SvgJob| -> Option<Vec<u8>> {
        assert_eq!((job.natural_width, job.natural_height), (40, 20));
        Some([100, 50, 0, 128].repeat((job.width * job.height) as usize))
    };
    let image = decode_svg(SVG, 10, 0, &render).unwrap();
    assert_eq!((image.width, image.height), (10, 5));
    assert_eq!(&image.pixels[..3], &[199, 99, 0]);
    let none = |_: &resvg::usvg::Tree, _: &SvgJob| -> Option<Vec<u8>> { None };
    assert_eq!(
        decode_svg(SVG, 0, 0, &none).unwrap_err().message(),
        "malformed source image: failed to allocate the SVG raster surface"
    );
}

#[test]
fn surfaces_lose_their_alpha() {
    let data = vec![10, 20, 30, 255, 10, 20, 30, 0, 200, 100, 50, 100];
    assert_eq!(surface_to_rgb(&data), vec![10, 20, 30, 0, 0, 0, 255, 255, 127]);
}

// ---- other decoders ----
fn png(image: &DecodedImage) -> Vec<u8> {
    let mut out = Vec::new();
    let encoder = image::codecs::png::PngEncoder::new(&mut out);
    image::ImageEncoder::write_image(
        encoder,
        &image.pixels,
        image.width,
        image.height,
        image::ExtendedColorType::Rgb8,
    )
    .unwrap();
    out
}

#[test]
fn images_are_loaded_by_content() {
    let image = numbered(5, 3);
    let loaded = decode_via_image(&png(&image)).unwrap();
    assert_eq!((loaded.width, loaded.height), (5, 3));
    assert_eq!(loaded.pixels, image.pixels);
    assert_eq!(decode_info_via_image(&png(&image)).unwrap(), ImageInfo { width: 5, height: 3 });
    let e = decode_via_image(b"garbage").unwrap_err();
    assert!(e.message().starts_with("malformed source image: generic image decode failed: "));
    let e = decode_info_via_image(b"garbage").unwrap_err();
    assert!(e.message().starts_with("malformed source image: source image decode failed: "));
}

#[test]
fn bundled_replies() {
    let ok = finish_jpeg_decode(Ok(JpegPixels { pixels: vec![1, 2, 3], dimensions: Some((1, 1)) }));
    assert_eq!(ok.unwrap().pixels, vec![1, 2, 3]);
    let none = finish_jpeg_decode(Ok(JpegPixels { pixels: vec![], dimensions: None })).unwrap_err();
    assert_eq!(none.message(), "malformed source image: JPEG: no dimensions after decode");
    let e = finish_jpeg_decode(Err(JpegFailure::Header("h".to_string()))).unwrap_err();
    assert_eq!(e.message(), "malformed source image: JPEG header: h");
    let e = finish_jpeg_decode(Err(JpegFailure::Decode("d".to_string()))).unwrap_err();
    assert_eq!(e.message(), "malformed source image: JPEG decode: d");

    let alpha = WebpPixels { data: vec![1, 2, 3, 4], width: 1, height: 1, has_alpha: true };
    assert_eq!(finish_webp_decode(Ok(alpha)).unwrap().pixels, vec![1, 2, 3]);
    let opaque = WebpPixels { data: vec![1, 2, 3], width: 1, height: 1, has_alpha: false };
    assert_eq!(finish_webp_decode(Ok(opaque)).unwrap().pixels, vec![1, 2, 3]);
    for (failure, text) in [
        (WebpFailure::Start("s".to_string()), "WebP decoder initialization failed: s"),
        (WebpFailure::TooLarge, "WebP output buffer would exceed addressable memory"),
        (WebpFailure::Decode("d".to_string()), "WebP pixel decode failed: d"),
    ] {
        let e = finish_webp_decode(Err(failure)).unwrap_err();
        assert_eq!(e.message(), format!("malformed source image: {}", text));
    }

    let job = plan_pdf(0x1_0002, 0, 3_000_000_000);
    assert_eq!((job.page, job.width, job.height), (2, None, Some(-1_294_967_296)));
    assert_eq!(finish_pdf(Ok((vec![9; 3], 1, 1))).unwrap().pixels, vec![9; 3]);
    for (failure, text) in [
        (PdfFailure::Load("l".to_string()), "PDF loading failed: l"),
        (PdfFailure::Page("p".to_string()), "PDF page lookup failed: p"),
        (PdfFailure::Render("r".to_string()), "PDF rasterization failed: r"),
    ] {
        let e = finish_pdf(Err(failure)).unwrap_err();
        assert_eq!(e.message(), format!("malformed source image: {}", text));
    }
}

#[test]
fn planes_are_packed() {
    let to_byte = |bits: u32| (f32::from_bits(bits).clamp(0.0, 1.0) * 255.0 + 0.5) as u8;
    let plane = |v: &[f32]| v.iter().map(|x| x.to_bits()).collect::<Vec<u32>>();
    let r = plane(&[0.0, 1.0]);
    let g = plane(&[0.5, -1.0]);
    let b = plane(&[2.0]);
    let rgb = planar_to_rgb(&to_byte, PixelFormat::Rgb, &r, Some(&g), Some(&b), 2, 1);
    assert_eq!(rgb.pixels, vec![0, 128, 255, 0, 0, 0]);
    let gray = planar_to_rgb(&to_byte, PixelFormat::Graya, &r, None, None, 2, 2);
    assert_eq!(gray.pixels, vec![0, 0, 0, 255, 255, 255, 0, 0, 0, 0, 0, 0]);
}

#[test]
fn jpeg2000_needs_a_signature() {
    let decoder = |data: &[u8]| -> Result<jp2::ComponentImage, jp2::DecodeError> {
        if data.len() == 4 {
            return Err(jp2::DecodeError::Codestream("short".to_string()));
        }
        Ok(jp2::ComponentImage { width: 1, height: 2, components: 259, data: data.to_vec() })
    };
    assert!(matches!(jp2::decode(b"nothing", decoder), Err(jp2::DecodeError::InvalidSignature)));
    assert!(matches!(jp2::decode(b"", decoder), Err(jp2::DecodeError::InvalidSignature)));
    let image = jp2::decode(b"\xFF\x4F\xFF\x51abc", decoder).ok().unwrap();
    assert_eq!((image.width, image.height, image.components), (1, 2, 3));
    assert_eq!(image.pixels.len(), 7);
    assert!(jp2::decode(b"\x00\x00\x00\x0C\x6A\x50\x20\x20", decoder).is_ok());
    assert!(matches!(
        jp2::decode(b"\xFF\x4F\xFF\x51", decoder),
        Err(jp2::DecodeError::Codestream(_))
    ));
}

#[test]
fn jpeg_colors() {
    let mut y = [0i16; 16];
    for (i, v) in y.iter_mut().enumerate() {
        *v = (i * 16) as i16;
    }
    let flat = [128i16; 16];
    let mut out = vec![1u8; 70];
    let mut offset = 2;
    ycbcr_to_rgba_avx512(&y, &flat, &flat, &mut out, &mut offset);
    assert_eq!(offset, 66);
    assert_eq!(&out[..6], &[1, 1, 0, 0, 0, 255]);
    assert_eq!(&out[62..68], &[240, 240, 240, 255, 1, 1]);
    let mut rgb = vec![0u8; 48];
    let mut offset = 0;
    ycbcr_to_rgb_avx512(&[76; 16], &[85; 16], &[255; 16], &mut rgb, &mut offset);
    assert_eq!(offset, 48);
    assert_eq!(&rgb[..3], &[254, 0, 0]);
    assert_eq!(&rgb[45..], &[254, 0, 0]);
    let mask = rgb_shuffle_mask(1, 2);
    assert_eq!(mask[1], 5);
    assert_eq!(mask[0], -128);
    for chunk in 0..3usize {
        for i in 0..16usize {
            let claims: Vec<i8> = (0..3).map(|c| rgb_shuffle_mask(chunk, c)[i]).collect();
            assert_eq!(claims.iter().filter(|v| **v >= 0).count(), 1);
            assert_eq!(claims[(chunk * 16 + i) % 3] as usize, (chunk * 16 + i) / 3);
        }
    }
}

// ---- JPEG XL settings ----
#[test]
fn jxl_plans() {
    let mut options = JxlEncodeOptions::default();
    options.epf = Some(false);
    options.max_strategy_size = Some(16);
    options.lossless_lz77 = Some(true);
    let lossy = plan_jxl(&options);
    assert_eq!(lossy.distance, Some(ONE_BITS));
    assert_eq!((lossy.effort, lossy.mode, lossy.threads), (5, EncoderMode::Experimental, 0));
    assert_eq!(lossy.settings, vec![JxlSetting::MaxStrategySize(16), JxlSetting::Epf(false)]);
    options.lossless = true;
    let lossless = plan_jxl(&options);
    assert_eq!(lossless.distance, None);
    assert_eq!(lossless.settings, vec![JxlSetting::Lz77(true)]);
    options.lossless = false;
    options.distance = None;
    assert_eq!(plan_jxl(&options).distance, Some(1.0f32.to_bits()));

    let encoder = |plan: &JxlPlan, pixels: &[u8], w: u32, h: u32| -> Result<Vec<u8>, String> {
        if w == 0 {
            return Err("empty".to_string());
        }
        Ok(vec![pixels.len() as u8, w as u8, h as u8, plan.settings.len() as u8])
    };
    assert_eq!(encode_jxl_rgb(&[0; 6], 2, 1, &options, &encoder).unwrap(), vec![6, 2, 1, 2]);
    let e = encode_jxl_rgb(&[], 0, 1, &options, &encoder).unwrap_err();
    assert_eq!(e.message(), "failed to encode output image: lossy JPEG XL encoding failed: empty");
    options.lossless = true;
    let e = encode_jxl_rgb(&[], 0, 1, &options, &encoder).unwrap_err();
    assert_eq!(e.message(), "failed to encode output image: lossless JPEG XL encoding failed: empty");
}
