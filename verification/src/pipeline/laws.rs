//! What the steps between reading a picture and writing one do to its pixels and settings.
use crate::pipeline::bundled::{
    jpeg_image, pdf_image, pdf_job, webp_image, JpegFailure, JpegPixels, PdfFailure, WebpFailure,
    WebpPixels,
};
use crate::pipeline::cache::{cache_new, limit_of, AVERAGE_DECODED_IMAGE_BYTES};
use crate::pipeline::codecs::doubled;
use crate::pipeline::encode::{
    avif_speed, capped, clamped, gif_speed, jpeg_plan, jxl_settings_for, pixel_triples, png_depth,
    png_level, png_samples, tiff_predicts,
};
use crate::pipeline::format::{
    format_of, has_at, is_svg, probe_of, skip_blank, svg_tag,
};
use crate::pipeline::image::{
    cropped, lemma_packed_at, lemma_turned_at, region_applied, region_error,
    region_of, rotated, square_region, ImageModel, Turn,
};
use crate::pipeline::jxl_options::{
    adaptive_block_contexts_setting, adaptive_quant_setting, adjust_quant_ac_setting,
    cfl_setting, cfl_two_pass_setting, chromacity_adjustment_setting, custom_orders_setting,
    epf_dynamic_sharpness_setting, epf_setting, force_strategy_setting, gaborish_setting,
    is_plan_for,
    lossless_lz77_setting, lossless_settings, lossless_squeeze_setting,
    lossless_tree_learning_setting, lossy_settings, made, max_strategy_size_setting,
    optimize_codes_setting, patches_setting, pixel_domain_loss_setting, JxlEncodeOptions,
    JxlPlan, JxlSetting,
};
use crate::pipeline::planar::{is_packed, plane_len, PixelFormat};
use crate::pipeline::resize::filter_for;
use crate::pipeline::svg::{job_of, plain, surface_bytes};
use crate::pipeline::tiff::{high, rgb_bytes, SamplesModel, TiffColor};
use crate::processor::region_tuple;
use crate::request::{
    ErrorModel, ImageInfo, JpegEncodeOptions, ProcessRequest, RequestedRegion, TiffEncodeOptions,
};
use vstd::prelude::*;

verus! {

// ---- regions and rotation ----
/// An image holds a region that is not empty exactly if it holds its lower right pixel; then every
/// pixel of the region is a pixel of the image.
pub proof fn lemma_region_inside(image: ImageInfo, r: RequestedRegion, x: int, y: int)
    ensures
        image.holds(r) == (r.width >= 1 && r.height >= 1 && r.left + r.width - 1 < image.width
            && r.top + r.height - 1 < image.height),
        image.holds(r) && r.left <= x < r.left + r.width && r.top <= y < r.top + r.height ==> 0
            <= x < image.width && 0 <= y < image.height,
{
}

/// A pixel of the region keeps its color, and lies as far from the region's corner as it did.
pub proof fn lemma_crop_pixel(m: ImageModel, r: RequestedRegion, x: int, y: int, k: int)
    requires
        m.info().holds(r),
        r.left <= x < r.left + r.width,
        r.top <= y < r.top + r.height,
        0 <= k < 3,
    ensures
        region_applied(m, r).at(y - r.top, x - r.left, k) == m.at(y, x, k),
        region_applied(m, r).width == r.width,
        region_applied(m, r).height == r.height,
{
    lemma_packed_at(r.width as int, r.height as int, y - r.top, x - r.left, k);
    assert(cropped(m, r).at(y - r.top, x - r.left, k) == m.at(y, x, k));
}

/// The square in the middle takes all of the shorter side.
pub proof fn lemma_square_side(width: u32, height: u32)
    ensures
        ({
            let s = square_region(width, height);
            &&& s.width == s.height
            &&& s.width <= width && s.height <= height
            &&& s.width == width || s.height == height
            &&& -1 <= 2 * s.left + s.width - width <= 0
            &&& -1 <= 2 * s.top + s.height - height <= 0
        }),
{
}

/// By a right angle an image turns clockwise: its first row becomes its last column, and what was
/// at the left comes to the top. By three right angles it turns the other way.
pub proof fn lemma_rotated_pixel(m: ImageModel, degrees: int, x: int, y: int, k: int)
    requires
        0 <= x < m.width,
        0 <= y < m.height,
        0 <= k < 3,
        degrees >= 0,
    ensures
        ({
            let r = rotated(m, degrees);
            &&& degrees % 360 == 90 ==> r.width == m.height && r.height == m.width && r.at(
                x,
                m.height - 1 - y,
                k,
            ) == m.at(y, x, k)
            &&& degrees % 360 == 180 ==> r.width == m.width && r.height == m.height && r.at(
                m.height - 1 - y,
                m.width - 1 - x,
                k,
            ) == m.at(y, x, k)
            &&& degrees % 360 == 270 ==> r.width == m.height && r.height == m.width && r.at(
                m.width - 1 - x,
                y,
                k,
            ) == m.at(y, x, k)
            &&& degrees % 90 != 0 || degrees % 360 == 0 ==> r == m
        }),
{
    if degrees % 360 == 90 {
        lemma_turned_at(m, Turn::Right, x, m.height - 1 - y, k);
    } else if degrees % 360 == 180 {
        lemma_turned_at(m, Turn::Half, m.height - 1 - y, m.width - 1 - x, k);
    } else if degrees % 360 == 270 {
        lemma_turned_at(m, Turn::Left, m.width - 1 - x, y, k);
    }
}

// ---- resizing ----
/// The linear kernel is taken exactly where a side shrinks to less than half of itself, the half
/// rounded down.
pub proof fn lemma_filter(src_w: int, src_h: int, out_w: int, out_h: int)
    requires
        0 <= src_w,
        0 <= src_h,
        0 <= out_w,
        0 <= out_h,
    ensures
        (filter_for(src_w, src_h, out_w, out_h) is Bilinear) == (2 * out_w + 2 <= src_w || 2 * out_h
            + 2 <= src_h),
        filter_for(src_w, src_h, out_w, out_h) == filter_for(src_h, src_w, out_h, out_w),
{
}

// ---- samples ----
/// The byte of a sample of two bytes is the sample at a scale of 256, rounded down; it never falls
/// where the sample grows.
pub proof fn lemma_high(v: u16, w: u16)
    ensures
        256 * high(v) <= v < 256 * high(v) + 256,
        v <= w ==> high(v) <= high(w),
{
}

/// Grey stands in all three channels of its pixel; color keeps its channels, and alpha is dropped.
#[verifier::rlimit(60)]
pub proof fn lemma_tiff_bytes(s: Seq<u8>, p: int, k: int)
    requires
        0 <= p,
        0 <= k < 3,
    ensures
        ({
            let gray = rgb_bytes(SamplesModel::U8(s), TiffColor::Gray(8))->0;
            &&& gray.len() == 3 * s.len()
            &&& p < s.len() ==> gray[3 * p + k] == s[p]
        }),
        rgb_bytes(SamplesModel::U8(s), TiffColor::Rgb(8)) == Some(s),
        ({
            let rgb = rgb_bytes(SamplesModel::U8(s), TiffColor::Rgba(8))->0;
            &&& 4 * rgb.len() <= 3 * s.len() < 4 * rgb.len() + 12
            &&& 4 * p + 3 < s.len() ==> rgb[3 * p + k] == s[4 * p + k]
        }),
{
    let i = 3 * p + k;
    assert(i / 3 == p && i % 3 == k);
}

/// The same with samples of two bytes, of which the upper one is kept.
#[verifier::rlimit(60)]
pub proof fn lemma_tiff_words(s: Seq<u16>, p: int, k: int)
    requires
        0 <= p,
        0 <= k < 3,
    ensures
        ({
            let gray = rgb_bytes(SamplesModel::U16(s), TiffColor::Gray(16))->0;
            &&& gray.len() == 3 * s.len()
            &&& p < s.len() ==> 0 <= s[p] - 256 * gray[3 * p + k] < 256
        }),
        ({
            let rgb = rgb_bytes(SamplesModel::U16(s), TiffColor::Rgb(16))->0;
            &&& rgb.len() == s.len()
            &&& p < s.len() ==> 0 <= s[p] - 256 * rgb[p] < 256
        }),
        ({
            let rgb = rgb_bytes(SamplesModel::U16(s), TiffColor::Rgba(16))->0;
            &&& 4 * rgb.len() <= 3 * s.len() < 4 * rgb.len() + 12
            &&& 4 * p + 3 < s.len() ==> 0 <= s[4 * p + k] - 256 * rgb[3 * p + k] < 256
        }),
{
    let i = 3 * p + k;
    assert(i / 3 == p && i % 3 == k);
}

/// A WebP picture keeps the channels of its pixels, and loses its alpha.
#[verifier::rlimit(60)]
pub proof fn lemma_webp_pixel(reply: Result<WebpPixels, WebpFailure>, p: int, k: int)
    requires
        reply is Ok,
        0 <= p,
        0 <= k < 3,
    ensures
        webp_image(reply) is Ok,
        ({
            let from = reply->Ok_0;
            let m = webp_image(reply)->Ok_0;
            &&& m.width == from.width && m.height == from.height
            &&& from.has_alpha && 4 * p + 3 < from.data@.len() ==> 3 * p + k < m.pixels.len()
                && m.pixels[3 * p + k] == from.data@[4 * p + k]
            &&& !from.has_alpha && 3 * p + k < from.data@.len() ==> m.pixels[3 * p + k]
                == from.data@[3 * p + k]
        }),
{
    let i = 3 * p + k;
    assert(i / 3 == p && i % 3 == k);
}

/// Red, green and blue of a drawn pixel stay in their places, and are set free of the pixel's alpha:
/// at full alpha they are kept, and at none they are black.
pub proof fn lemma_surface_pixel(data: Seq<u8>, p: int, k: int)
    requires
        0 <= p,
        4 * p + 3 < data.len(),
        0 <= k < 3,
    ensures
        3 * p + k < surface_bytes(data).len(),
        ({
            let v = surface_bytes(data)[3 * p + k] as int;
            let c = data[4 * p + k] as int;
            let a = data[4 * p + 3] as int;
            &&& a == 255 ==> v == c
            &&& a == 0 ==> v == 0
            &&& a > 0 && c <= a ==> v * a <= 255 * c < v * a + a
            &&& a > 0 && c >= a ==> v == 255
        }),
{
    let c = data[4 * p + k] as int;
    let a = data[4 * p + 3] as int;
    let i = 3 * p + k;
    assert(i / 3 == p && i % 3 == k);
    assert(surface_bytes(data)[i] == plain(c, a) as u8);
    if a > 0 {
        let q = c * 255 / a;
        vstd::arithmetic::div_mod::lemma_fundamental_div_mod(c * 255, a);
        vstd::arithmetic::div_mod::lemma_mod_bound(c * 255, a);
        assert(q >= 0) by (nonlinear_arith)
            requires
                q == c * 255 / a,
                0 <= c,
                a > 0,
        ;
        if c >= a {
            assert(q >= 255) by (nonlinear_arith)
                requires
                    q == c * 255 / a,
                    c >= a,
                    a > 0,
            ;
        }
        if c <= a {
            assert(q <= 255) by (nonlinear_arith)
                requires
                    q == c * 255 / a,
                    0 <= c <= a,
                    a > 0,
            ;
            assert(surface_bytes(data)[i] == q);
            assert(q * a == a * q) by (nonlinear_arith);
        }
    }
}

/// Planes are packed pixel by pixel in the order red, green, blue; a grey plane fills all three.
pub proof fn lemma_packed_pixel<K: Fn(u32) -> u8>(
    kernel: K,
    format: PixelFormat,
    r: Seq<u32>,
    g: Seq<u32>,
    b: Seq<u32>,
    pixels: Seq<u8>,
    p: int,
)
    requires
        is_packed(kernel, format, r, g, b, pixels),
        0 <= p < r.len(),
        3 * p + 2 < pixels.len(),
    ensures
        format is Gray || format is Graya ==> {
            &&& call_ensures(kernel, (r[p],), pixels[3 * p])
            &&& call_ensures(kernel, (r[p],), pixels[3 * p + 1])
            &&& call_ensures(kernel, (r[p],), pixels[3 * p + 2])
        },
        !(format is Gray || format is Graya) && p < g.len() && p < b.len() ==> {
            &&& call_ensures(kernel, (r[p],), pixels[3 * p])
            &&& call_ensures(kernel, (g[p],), pixels[3 * p + 1])
            &&& call_ensures(kernel, (b[p],), pixels[3 * p + 2])
        },
{
    let n = plane_len(format, r, g, b);
    assert((3 * p) / 3 == p && (3 * p + 1) / 3 == p && (3 * p + 2) / 3 == p);
    assert((3 * p) % 3 == 0 && (3 * p + 1) % 3 == 1 && (3 * p + 2) % 3 == 2);
    let u = pixels[3 * p];
    let v = pixels[3 * p + 1];
    let w = pixels[3 * p + 2];
}

/// Samples of two bytes reach from none to all as bytes do: each is 257 times its byte.
pub proof fn lemma_doubled(pixels: Seq<u8>, i: int)
    requires
        0 <= i < pixels.len(),
    ensures
        doubled(pixels).len() == 2 * pixels.len(),
        256 * doubled(pixels)[2 * i] + doubled(pixels)[2 * i + 1] == 257 * pixels[i],
{
}

/// Pixels are told apart without a gap.
pub proof fn lemma_triples(pixels: Seq<u8>, i: int)
    requires
        0 <= i,
        3 * i + 2 < pixels.len(),
    ensures
        i < pixel_triples(pixels).len(),
        pixels.subrange(3 * i, 3 * i + 3) == seq![
            pixel_triples(pixels)[i].0,
            pixel_triples(pixels)[i].1,
            pixel_triples(pixels)[i].2,
        ],
{
    assert(pixels.subrange(3 * i, 3 * i + 3) =~= seq![
        pixel_triples(pixels)[i].0,
        pixel_triples(pixels)[i].1,
        pixel_triples(pixels)[i].2,
    ]);
}

// ---- settings ----
/// More effort never makes an encoder faster: GIF goes from 28 down to 1 in steps of three, AVIF
/// from 9 down to 1 in steps of one.
pub proof fn lemma_effort(a: u8, b: u8)
    requires
        a <= b,
    ensures
        gif_speed(b) <= gif_speed(a),
        avif_speed(b) <= avif_speed(a),
        1 <= gif_speed(a) <= 28,
        1 <= avif_speed(a) <= 9,
        1 <= a && b <= 10 ==> gif_speed(a) - gif_speed(b) == 3 * (b - a),
        1 <= a && b <= 9 ==> avif_speed(a) - avif_speed(b) == b - a,
        gif_speed(1) == 28,
        gif_speed(10) == 1,
        avif_speed(1) == 9,
        avif_speed(9) == 1,
{
}

/// Settings are kept where they are in range, and moved to the nearest bound where they are not.
pub proof fn lemma_settings_kept(v: u8)
    ensures
        v <= 100 ==> capped(v) == v,
        v > 100 ==> capped(v) == 100,
        1 <= v <= 100 ==> clamped(v) == v,
        v == 0 ==> clamped(v) == 1,
        v > 100 ==> clamped(v) == 100,
        v <= 9 ==> png_level(v) == v,
        v > 9 ==> png_level(v) == 9,
{
}

/// A JPEG plan always says how chroma is sampled: as asked for, and without a wish in full from a
/// quality of 90 on. Only a progressive file may change what was asked of its codes.
pub proof fn lemma_jpeg_plan(o: JpegEncodeOptions)
    ensures
        ({
            let plan = jpeg_plan(o);
            &&& !(plan.chroma_subsampling is Auto)
            &&& !(o.chroma_subsampling is Auto) ==> plan.chroma_subsampling
                == o.chroma_subsampling
            &&& o.chroma_subsampling is Auto ==> (plan.chroma_subsampling is Cs444) == (o.quality
                >= 90)
            &&& o.chroma_subsampling is Auto ==> (plan.chroma_subsampling is Cs420) == (o.quality
                <= 89)
            &&& plan.progressive == o.progressive
            &&& plan.restart_interval == o.restart_interval
            &&& plan.progressive ==> plan.optimize_huffman
            &&& !plan.progressive ==> plan.optimize_huffman == o.optimize_huffman
            &&& plan.quality <= 100
            &&& o.quality <= 100 ==> plan.quality == o.quality
        }),
{
}

/// A size that is given is handed on, one that is not given is left open.
pub proof fn lemma_pdf_job(page: u32, out_w: u32, out_h: u32)
    ensures
        ({
            let job = pdf_job(page, out_w, out_h);
            &&& page <= 0xFFFF ==> job.page == page
            &&& (job.width is None) == (out_w == 0)
            &&& (job.height is None) == (out_h == 0)
            &&& 0 < out_w <= 0x7FFF_FFFF ==> job.width == Some(out_w as i32)
            &&& 0 < out_h <= 0x7FFF_FFFF ==> job.height == Some(out_h as i32)
        }),
{
}

/// The bound of the cache is given in units of 1024 times 1024 bytes.
pub proof fn lemma_cache_limit(mb: int)
    requires
        0 <= mb,
        mb * 1024 * 1024 <= usize::MAX,
    ensures
        limit_of(mb) == mb * 1024 * 1024,
{
}

proof fn lemma_either<A>(a: Seq<A>, b: Seq<A>, x: A)
    ensures
        (a + b).contains(x) == (a.contains(x) || b.contains(x)),
{
    if a.contains(x) {
        let i = a.index_of(x);
        assert((a + b)[i] == x);
    }
    if b.contains(x) {
        let i = b.index_of(x);
        assert((a + b)[a.len() + i] == x);
    }
    if (a + b).contains(x) {
        let i = (a + b).index_of(x);
        if i < a.len() {
            assert(a[i] == x);
        } else {
            assert(b[i - a.len()] == x);
        }
    }
}

proof fn lemma_made(a: Option<JxlSetting>, x: JxlSetting)
    ensures
        made(a).contains(x) == (a == Some(x)),
{
    if a is Some {
        assert(made(a)[0] == a->0);
    }
}

/// A wish for a lossless picture reaches the encoder under its own name, and nothing else does.
pub proof fn lemma_lossless_settings(o: JxlEncodeOptions, x: JxlSetting)
    ensures
        lossless_settings(o).contains(x) == match x {
            JxlSetting::Patches(v) => o.patches == Some(v),
            JxlSetting::TreeLearning(v) => o.lossless_tree_learning == Some(v),
            JxlSetting::Lz77(v) => o.lossless_lz77 == Some(v),
            JxlSetting::Squeeze(v) => o.lossless_squeeze == Some(v),
            _ => false,
        },
{
    let a = made(patches_setting(o));
    let b = made(lossless_tree_learning_setting(o));
    let c = made(lossless_lz77_setting(o));
    let d = made(lossless_squeeze_setting(o));
    lemma_made(patches_setting(o), x);
    lemma_made(lossless_tree_learning_setting(o), x);
    lemma_made(lossless_lz77_setting(o), x);
    lemma_made(lossless_squeeze_setting(o), x);
    lemma_either(a, b, x);
    lemma_either(a + b, c, x);
    lemma_either(a + b + c, d, x);
}

/// A wish for a lossy picture reaches the encoder under its own name, and nothing else does.
pub proof fn lemma_lossy_settings(o: JxlEncodeOptions, x: JxlSetting)
    ensures
        lossy_settings(o).contains(x) == match x {
            JxlSetting::MaxStrategySize(v) => o.max_strategy_size == Some(v),
            JxlSetting::ForceStrategy(v) => o.force_strategy == Some(v),
            JxlSetting::CustomOrders(v) => o.custom_orders == Some(v),
            JxlSetting::AdaptiveBlockContexts(v) => o.adaptive_block_contexts == Some(v),
            JxlSetting::Patches(v) => o.patches == Some(v),
            JxlSetting::Gaborish(v) => o.gaborish == Some(v),
            JxlSetting::PixelDomainLoss(v) => o.pixel_domain_loss == Some(v),
            JxlSetting::AdaptiveQuant(v) => o.adaptive_quant == Some(v),
            JxlSetting::AdjustQuantAc(v) => o.adjust_quant_ac == Some(v),
            JxlSetting::ChromacityAdjustment(v) => o.chromacity_adjustment == Some(v),
            JxlSetting::Cfl(v) => o.cfl == Some(v),
            JxlSetting::CflTwoPass(v) => o.cfl_two_pass == Some(v),
            JxlSetting::Epf(v) => o.epf == Some(v),
            JxlSetting::EpfDynamicSharpness(v) => o.epf_dynamic_sharpness == Some(v),
            JxlSetting::OptimizeCodes(v) => o.optimize_codes == Some(v),
            _ => false,
        },
{
    let s1 = made(max_strategy_size_setting(o));
    let s2 = s1 + made(force_strategy_setting(o));
    let s3 = s2 + made(custom_orders_setting(o));
    let s4 = s3 + made(adaptive_block_contexts_setting(o));
    let s5 = s4 + made(patches_setting(o));
    let s6 = s5 + made(gaborish_setting(o));
    let s7 = s6 + made(pixel_domain_loss_setting(o));
    let s8 = s7 + made(adaptive_quant_setting(o));
    let s9 = s8 + made(adjust_quant_ac_setting(o));
    let s10 = s9 + made(chromacity_adjustment_setting(o));
    let s11 = s10 + made(cfl_setting(o));
    let s12 = s11 + made(cfl_two_pass_setting(o));
    let s13 = s12 + made(epf_setting(o));
    let s14 = s13 + made(epf_dynamic_sharpness_setting(o));
    lemma_made(max_strategy_size_setting(o), x);
    lemma_made(force_strategy_setting(o), x);
    lemma_made(custom_orders_setting(o), x);
    lemma_made(adaptive_block_contexts_setting(o), x);
    lemma_made(patches_setting(o), x);
    lemma_made(gaborish_setting(o), x);
    lemma_made(pixel_domain_loss_setting(o), x);
    lemma_made(adaptive_quant_setting(o), x);
    lemma_made(adjust_quant_ac_setting(o), x);
    lemma_made(chromacity_adjustment_setting(o), x);
    lemma_made(cfl_setting(o), x);
    lemma_made(cfl_two_pass_setting(o), x);
    lemma_made(epf_setting(o), x);
    lemma_made(epf_dynamic_sharpness_setting(o), x);
    lemma_made(optimize_codes_setting(o), x);
    lemma_either(s1, made(force_strategy_setting(o)), x);
    lemma_either(s2, made(custom_orders_setting(o)), x);
    lemma_either(s3, made(adaptive_block_contexts_setting(o)), x);
    lemma_either(s4, made(patches_setting(o)), x);
    lemma_either(s5, made(gaborish_setting(o)), x);
    lemma_either(s6, made(pixel_domain_loss_setting(o)), x);
    lemma_either(s7, made(adaptive_quant_setting(o)), x);
    lemma_either(s8, made(adjust_quant_ac_setting(o)), x);
    lemma_either(s9, made(chromacity_adjustment_setting(o)), x);
    lemma_either(s10, made(cfl_setting(o)), x);
    lemma_either(s11, made(cfl_two_pass_setting(o)), x);
    lemma_either(s12, made(epf_setting(o)), x);
    lemma_either(s13, made(epf_dynamic_sharpness_setting(o)), x);
    lemma_either(s14, made(optimize_codes_setting(o)), x);
}

// ---- formats ----
/// The bytes from a place on spell a text.
pub open spec fn spells(d: Seq<u8>, at: int, text: Seq<char>) -> bool {
    at + text.len() <= d.len() && forall|i: int|
        0 <= i < text.len() ==> d[at + i] as u32 == #[trigger] text[i] as u32
}

proof fn lemma_spells(d: Seq<u8>, at: int, magic: Seq<u8>, text: Seq<char>)
    requires
        0 <= at,
        magic.len() == text.len(),
        forall|i: int| 0 <= i < text.len() ==> magic[i] as u32 == #[trigger] text[i] as u32,
    ensures
        has_at(d, at, magic) == spells(d, at, text),
{
    if spells(d, at, text) {
        assert forall|i: int| 0 <= i < magic.len() implies d.subrange(at, at + magic.len())[i]
            == magic[i] by {
            assert(d[at + i] as u32 == text[i] as u32);
        }
        assert(d.subrange(at, at + magic.len()) =~= magic);
    }
    if has_at(d, at, magic) {
        assert forall|i: int| 0 <= i < text.len() implies d[at + i] as u32 == #[trigger] text[i]
            as u32 by {
            assert(d.subrange(at, at + magic.len())[i] == magic[i]);
        }
    }
}

/// Formats that spell their names are told by them.
pub proof fn lemma_named_formats(d: Seq<u8>)
    ensures
        (format_of(d) is Webp) == (spells(d, 0, "RIFF"@) && spells(d, 8, "WEBP"@)),
        (format_of(d) is Gif) == spells(d, 0, "GIF8"@),
        (format_of(d) is Bmp) == spells(d, 0, "BM"@),
        (format_of(d) is Pdf) == spells(d, 0, "%PDF-"@),
        (format_of(d) is Tiff) == (spells(d, 0, "II*\0"@) || spells(d, 0, "MM\0*"@)),
        format_of(d) is Avif ==> spells(d, 4, "ftypavif"@) || spells(d, 4, "ftypavis"@),
        d.len() > 0 && d[0] == 0 && (spells(d, 4, "ftypavif"@) || spells(d, 4, "ftypavis"@))
            ==> format_of(d) is Avif,
{
    reveal_strlit("RIFF");
    reveal_strlit("WEBP");
    reveal_strlit("GIF8");
    reveal_strlit("BM");
    reveal_strlit("%PDF-");
    reveal_strlit("II*\0");
    reveal_strlit("MM\0*");
    reveal_strlit("ftypavif");
    reveal_strlit("ftypavis");
    lemma_spells(d, 0, seq![0x52u8, 0x49, 0x46, 0x46], "RIFF"@);
    lemma_spells(d, 8, seq![0x57u8, 0x45, 0x42, 0x50], "WEBP"@);
    lemma_spells(d, 0, seq![0x47u8, 0x49, 0x46, 0x38], "GIF8"@);
    lemma_spells(d, 0, seq![0x42u8, 0x4D], "BM"@);
    lemma_spells(d, 0, seq![0x25u8, 0x50, 0x44, 0x46, 0x2D], "%PDF-"@);
    lemma_spells(d, 0, seq![0x49u8, 0x49, 0x2A, 0x00], "II*\0"@);
    lemma_spells(d, 0, seq![0x4Du8, 0x4D, 0x00, 0x2A], "MM\0*"@);
    lemma_first_bytes(d);
    lemma_brand(d);
}

/// Of the formats that are told by their first bytes, each begins with its own.
proof fn lemma_first_bytes(d: Seq<u8>)
    ensures
        has_at(d, 0, seq![0xFFu8, 0x0A]) == (d.len() >= 2 && d[0] == 0xFF && d[1] == 0x0A),
        has_at(d, 0, seq![0xFFu8, 0xD8, 0xFF]) == (d.len() >= 3 && d[0] == 0xFF && d[1] == 0xD8
            && d[2] == 0xFF),
        has_at(d, 0, seq![0u8, 0, 0]) == (d.len() >= 3 && d[0] == 0 && d[1] == 0 && d[2] == 0),
        has_at(d, 0, seq![0x89u8, 0x50, 0x4E, 0x47]) == (d.len() >= 4 && d[0] == 0x89 && d[1]
            == 0x50 && d[2] == 0x4E && d[3] == 0x47),
        has_at(d, 4, seq![0x4Au8, 0x58, 0x4C, 0x20]) == (d.len() >= 8 && d[4] == 0x4A && d[5]
            == 0x58 && d[6] == 0x4C && d[7] == 0x20),
{
    let a = seq![0xFFu8, 0x0A];
    let b = seq![0xFFu8, 0xD8, 0xFF];
    let c = seq![0u8, 0, 0];
    let e = seq![0x89u8, 0x50, 0x4E, 0x47];
    let f = seq![0x4Au8, 0x58, 0x4C, 0x20];
    if d.len() >= 2 {
        let s = d.subrange(0, 2);
        assert(s[0] == d[0] && s[1] == d[1]);
        assert(a[0] == 0xFF && a[1] == 0x0A);
        assert((s == a) == (s =~= a));
    }
    if d.len() >= 3 {
        let s = d.subrange(0, 3);
        assert(s[0] == d[0] && s[1] == d[1] && s[2] == d[2]);
        assert(b[0] == 0xFF && b[1] == 0xD8 && b[2] == 0xFF);
        assert(c[0] == 0 && c[1] == 0 && c[2] == 0);
        assert((s == b) == (s =~= b));
        assert((s == c) == (s =~= c));
    }
    if d.len() >= 4 {
        let s = d.subrange(0, 4);
        assert(s[0] == d[0] && s[1] == d[1] && s[2] == d[2] && s[3] == d[3]);
        assert(e[0] == 0x89 && e[1] == 0x50 && e[2] == 0x4E && e[3] == 0x47);
        assert((s == e) == (s =~= e));
    }
    if d.len() >= 8 {
        let s = d.subrange(4, 8);
        assert(s[0] == d[4] && s[1] == d[5] && s[2] == d[6] && s[3] == d[7]);
        assert(f[0] == 0x4A && f[1] == 0x58 && f[2] == 0x4C && f[3] == 0x20);
        assert((s == f) == (s =~= f));
    }
}

proof fn lemma_brand(d: Seq<u8>)
    ensures
        (has_at(d, 4, seq![0x66u8, 0x74, 0x79, 0x70]) && has_at(
            d,
            8,
            seq![0x61u8, 0x76, 0x69, 0x66],
        )) == spells(d, 4, "ftypavif"@),
        (has_at(d, 4, seq![0x66u8, 0x74, 0x79, 0x70]) && has_at(
            d,
            8,
            seq![0x61u8, 0x76, 0x69, 0x73],
        )) == spells(d, 4, "ftypavis"@),
{
    reveal_strlit("ftypavif");
    reveal_strlit("ftypavis");
    reveal_strlit("ftyp");
    reveal_strlit("avif");
    reveal_strlit("avis");
    lemma_spells(d, 4, seq![0x66u8, 0x74, 0x79, 0x70], "ftyp"@);
    lemma_spells(d, 8, seq![0x61u8, 0x76, 0x69, 0x66], "avif"@);
    lemma_spells(d, 8, seq![0x61u8, 0x76, 0x69, 0x73], "avis"@);
    let t = "ftypavif"@;
    let u = "ftypavis"@;
    let f = "ftyp"@;
    let a = "avif"@;
    let b = "avis"@;
    if spells(d, 4, t) {
        assert forall|i: int| 0 <= i < 4 implies d[4 + i] as u32 == #[trigger] f[i] as u32 by {
            assert(t[i] == f[i]);
        }
        assert forall|i: int| 0 <= i < 4 implies d[8 + i] as u32 == #[trigger] a[i] as u32 by {
            assert(d[4 + (4 + i)] as u32 == t[4 + i] as u32);
        }
    }
    if spells(d, 4, u) {
        assert forall|i: int| 0 <= i < 4 implies d[4 + i] as u32 == #[trigger] f[i] as u32 by {
            assert(u[i] == f[i]);
        }
        assert forall|i: int| 0 <= i < 4 implies d[8 + i] as u32 == #[trigger] b[i] as u32 by {
            assert(d[4 + (4 + i)] as u32 == u[4 + i] as u32);
        }
    }
    if spells(d, 4, f) && spells(d, 8, a) {
        assert forall|i: int| 0 <= i < 8 implies d[4 + i] as u32 == #[trigger] t[i] as u32 by {
            if i < 4 {
                assert(d[4 + i] as u32 == f[i] as u32);
            } else {
                assert(d[8 + (i - 4)] as u32 == a[i - 4] as u32);
            }
        }
    }
    if spells(d, 4, f) && spells(d, 8, b) {
        assert forall|i: int| 0 <= i < 8 implies d[4 + i] as u32 == #[trigger] u[i] as u32 by {
            if i < 4 {
                assert(d[4 + i] as u32 == f[i] as u32);
            } else {
                assert(d[8 + (i - 4)] as u32 == b[i - 4] as u32);
            }
        }
    }
}

/// The other formats have a byte of their own before their names, or no name at all.
pub proof fn lemma_marked_formats(d: Seq<u8>)
    ensures
        (format_of(d) is Png) == (d.len() > 0 && d[0] == 137 && spells(d, 1, "PNG"@)),
        (format_of(d) is Jpeg) == (d.len() >= 3 && d[0] == 255 && d[1] == 216 && d[2] == 255),
        (format_of(d) is Jxl) == (d.len() >= 2 && d[0] == 255 && d[1] == 10 || d.len() >= 8 && d[0]
            == 0 && d[1] == 0 && d[2] == 0 && spells(d, 4, "JXL "@)),
{
    reveal_strlit("PNG");
    reveal_strlit("JXL ");
    lemma_first_bytes(d);
    let p = "PNG"@;
    let j = "JXL "@;
    assert(p[0] as u32 == 0x50 && p[1] as u32 == 0x4E && p[2] as u32 == 0x47);
    if spells(d, 1, p) {
        assert(d[1] as u32 == p[0] as u32);
        assert(d[2] as u32 == p[1] as u32);
        assert(d[3] as u32 == p[2] as u32);
    }
    lemma_spells(d, 4, seq![0x4Au8, 0x58, 0x4C, 0x20], j);
}

/// A text that begins with the tag of a drawing, in small letters or capitals, is one, unless it
/// goes on with the brand of an AVIF file.
pub proof fn lemma_drawing(d: Seq<u8>)
    requires
        spells(d, 0, "<svg"@) || spells(d, 0, "<SVG"@),
        !spells(d, 4, "ftypavif"@),
        !spells(d, 4, "ftypavis"@),
    ensures
        format_of(d) is Svg,
{
    reveal_strlit("<svg");
    reveal_strlit("<SVG");
    let a = "<svg"@;
    let b = "<SVG"@;
    let probe = probe_of(d);
    if spells(d, 0, a) {
        assert(d[0] as u32 == a[0] as u32 && d[1] as u32 == a[1] as u32);
        assert(d[2] as u32 == a[2] as u32 && d[3] as u32 == a[3] as u32);
    } else {
        assert(d[0] as u32 == b[0] as u32 && d[1] as u32 == b[1] as u32);
        assert(d[2] as u32 == b[2] as u32 && d[3] as u32 == b[3] as u32);
    }
    assert(probe[0] == 0x3C && probe[1] == 0x73 && probe[2] == 0x76 && probe[3] == 0x67);
    assert(probe.subrange(0, 3)[0] == 0x3C);
    assert(seq![0xEFu8, 0xBB, 0xBF][0] == 0xEF);
    assert(skip_blank(probe, 0) == 0);
    assert(probe.subrange(0, 4) =~= svg_tag());
    assert(is_svg(d));
    assert(d[0] == 0x3C);
    lemma_first_bytes(d);
    lemma_named_formats(d);
    lemma_marked_formats(d);
    reveal_strlit("RIFF");
    reveal_strlit("GIF8");
    reveal_strlit("BM");
    reveal_strlit("%PDF-");
    reveal_strlit("II*\0");
    reveal_strlit("MM\0*");
    reveal_strlit("ftypavif");
    reveal_strlit("ftypavis");
    reveal_strlit("ftyp");
    assert(d[0] as u32 != "RIFF"@[0] as u32);
    assert(d[0] as u32 != "GIF8"@[0] as u32);
    assert(d[0] as u32 != "BM"@[0] as u32);
    assert(d[0] as u32 != "%PDF-"@[0] as u32);
    assert(d[0] as u32 != "II*\0"@[0] as u32);
    assert(d[0] as u32 != "MM\0*"@[0] as u32);
}

/// Decoded pictures keep their width and height apart.
pub proof fn lemma_sizes_kept(
    jpeg: Result<JpegPixels, JpegFailure>,
    pdf: Result<(Vec<u8>, u32, u32), PdfFailure>,
)
    ensures
        jpeg is Ok && jpeg->Ok_0.dimensions is Some ==> jpeg_image(jpeg) is Ok,
        jpeg_image(jpeg) is Ok && jpeg->Ok_0.dimensions->Some_0.0 <= u32::MAX ==> jpeg_image(
            jpeg,
        )->Ok_0.width == jpeg->Ok_0.dimensions->Some_0.0,
        jpeg_image(jpeg) is Ok && jpeg->Ok_0.dimensions->Some_0.1 <= u32::MAX ==> jpeg_image(
            jpeg,
        )->Ok_0.height == jpeg->Ok_0.dimensions->Some_0.1,
        jpeg_image(jpeg) is Ok ==> jpeg_image(jpeg)->Ok_0.pixels == jpeg->Ok_0.pixels@,
        pdf is Ok ==> pdf_image(pdf) is Ok && pdf_image(pdf)->Ok_0.width == pdf->Ok_0.1
            && pdf_image(pdf)->Ok_0.height == pdf->Ok_0.2 && pdf_image(pdf)->Ok_0.pixels
            == pdf->Ok_0.0@,
{
}

/// A drawing is rendered at its own size unless another one is asked for; if only one side is given
/// the other follows.
pub proof fn lemma_drawing_size(size: (u32, u32), out_w: u32, out_h: u32)
    ensures
        ({
            let job = job_of(size, out_w, out_h);
            &&& job.natural_width == size.0 && job.natural_height == size.1
            &&& out_w == 0 && out_h == 0 ==> job.width == job.natural_width && job.height
                == job.natural_height
            &&& out_w > 0 ==> job.width == out_w
            &&& out_h > 0 ==> job.height == out_h
        }),
{
}

/// A region is refused exactly if it is empty or the image does not hold it, and one that is refused
/// though it is not empty is told together with the size of the image.
pub proof fn lemma_region_refused(r: RequestedRegion, image: ImageInfo)
    ensures
        region_error(r, image) is None == image.holds(r),
        r.width > 0 && r.height > 0 && !image.holds(r) ==> region_error(r, image) == Some(
            ErrorModel::RegionOutOfBounds(r, image),
        ),
{
}

/// A request asks for a region exactly if it gives both its sides, and hands it on as it is.
pub proof fn lemma_requested_region(request: ProcessRequest)
    ensures
        request.region() is Some == (request.region_width > 0 && request.region_height > 0),
        request.region() is Some ==> {
            let t = region_tuple(request.region())->0;
            &&& region_of(t) == request.region()->0
            &&& t.0 == request.region_left && t.1 == request.region_top
            &&& t.2 == request.region_width && t.3 == request.region_height
        },
        request.render_size() is None == (request.output_width == 0 && request.output_height == 0),
        request.render_size() is Some ==> request.render_size()->Some_0.0 == request.output_width
            && request.render_size()->Some_0.1 == request.output_height,
{
}

/// The cache has as many places as pictures of four times 1024 times 1024 bytes fill its bound, and
/// always one.
pub proof fn lemma_cache_places(limit: int)
    requires
        0 <= limit,
    ensures
        ({
            let n = cache_new(limit).capacity;
            &&& n >= 1
            &&& n > 1 ==> n * 4194304 <= limit
            &&& limit < (n + 1) * 4194304
        }),
        cache_new(limit).bytes_limit == limit,
        cache_new(limit).current_bytes == 0,
        cache_new(limit).entries.len() == 0,
{
    let places = limit / 4194304;
    assert(0 <= limit - 4194304 * places < 4194304);
    assert(places == limit / AVERAGE_DECODED_IMAGE_BYTES as int);
}

/// JPEG XL is written with the effort and the kind of compression that were asked for, and at the
/// distance that was told.
pub proof fn lemma_jxl_settings(o: crate::request::JxlEncodeOptions, distance: u32, plan: JxlPlan)
    requires
        is_plan_for(jxl_settings_for(o, distance), plan),
    ensures
        plan.effort == o.effort,
        o.lossless ==> plan.distance is None,
        !o.lossless ==> plan.distance == Some(distance),
        plan.settings@.len() == 0,
{
    let s = jxl_settings_for(o, distance);
    assert(lossless_settings(s).len() == 0);
    assert(lossy_settings(s).len() == 0);
}

/// A predictor is used only where it is asked for, and only with the two compressions that gain by it.
pub proof fn lemma_tiff_predictor(o: TiffEncodeOptions)
    ensures
        tiff_predicts(o) ==> o.predictor,
        tiff_predicts(o) ==> o.compression is Lzw || o.compression is Deflate,
        o.predictor && o.compression is Lzw ==> tiff_predicts(o),
        o.predictor && o.compression is Deflate ==> tiff_predicts(o),
{
}

/// Samples of two bytes are written only where sixteen bits are asked for.
pub proof fn lemma_png_samples(bitdepth: u8, pixels: Seq<u8>)
    ensures
        (png_samples(pixels, png_depth(bitdepth)).len() == 2 * pixels.len()) == (bitdepth == 16
            || pixels.len() == 0),
        bitdepth != 16 ==> png_samples(pixels, png_depth(bitdepth)) == pixels,
{
}

} // verus!
