//! TIFF input: pages of a file, and their samples as packed RGB.
use crate::pipeline::image::{image_result, DecodedImage, ImageModel};
use crate::request::{failed, malformed, CrabMagickError, ErrorModel};
use crate::text::{decimal, push_decimal};
use vstd::prelude::*;
use vstd::string::StringExecFns;

verus! {

/// How the samples of a page are to be taken.
#[derive(Debug, Clone, Copy, PartialEq, Eq, Structural)]
pub enum TiffColor {
    /// Grey, with so many bits.
    Gray(u8),
    /// Red, green, blue, with so many bits each.
    Rgb(u8),
    /// Red, green, blue, alpha, with so many bits each.
    Rgba(u8),
    /// Anything else.
    Other,
}

/// Samples of a page.
#[derive(Debug)]
pub enum TiffSamples {
    /// Of up to eight bits.
    U8(Vec<u8>),
    /// Of up to sixteen bits.
    U16(Vec<u16>),
    /// Any other samples.
    Other,
}

/// Samples of a page as a sequence.
pub enum SamplesModel {
    U8(Seq<u8>),
    U16(Seq<u16>),
    Other,
}

impl View for TiffSamples {
    type V = SamplesModel;

    open spec fn view(&self) -> SamplesModel {
        match *self {
            TiffSamples::U8(s) => SamplesModel::U8(s@),
            TiffSamples::U16(s) => SamplesModel::U16(s@),
            TiffSamples::Other => SamplesModel::Other,
        }
    }
}

/// The pages of a TIFF file, one of them at hand: `tiff`'s `Decoder` over the file's bytes.
#[verifier::external_body]
pub struct TiffPages {
    decoder: tiff::decoder::Decoder<std::io::BufReader<std::io::Cursor<Vec<u8>>>>,
}

/// The bytes of the file.
pub uninterp spec fn tiff_bytes(pages: TiffPages) -> Seq<u8>;

/// The index of the page at hand.
pub uninterp spec fn tiff_index(pages: TiffPages) -> nat;

/// Why a file cannot be opened, if it cannot.
pub uninterp spec fn tiff_open_error(bytes: Seq<u8>) -> Option<Seq<char>>;

/// A page follows the one of an index.
pub uninterp spec fn tiff_has_next(bytes: Seq<u8>, index: nat) -> bool;

/// Why the page behind the one of an index cannot be had, if it cannot.
pub uninterp spec fn tiff_next_error(bytes: Seq<u8>, index: nat) -> Option<Seq<char>>;

/// Width and height of a page.
pub uninterp spec fn tiff_dimensions(bytes: Seq<u8>, index: nat) -> Result<(u32, u32), Seq<char>>;

/// How the samples of a page are to be taken.
pub uninterp spec fn tiff_color(bytes: Seq<u8>, index: nat) -> Result<TiffColor, Seq<char>>;

/// The samples of a page.
pub uninterp spec fn tiff_samples(bytes: Seq<u8>, index: nat) -> Result<SamplesModel, Seq<char>>;

/// A result with its error's text as a sequence.
pub open spec fn text_result<T>(r: Result<T, String>) -> Result<T, Seq<char>> {
    match r {
        Ok(v) => Ok(v),
        Err(e) => Err(e@),
    }
}

/// Samples with their error's text as a sequence.
pub open spec fn samples_result(r: Result<TiffSamples, String>) -> Result<
    SamplesModel,
    Seq<char>,
> {
    match r {
        Ok(v) => Ok(v@),
        Err(e) => Err(e@),
    }
}

/// Opens a file at its first page: `tiff`'s `Decoder::new`.
///
/// Claims that the bytes alone decide whether this succeeds.
#[verifier::external_body]
fn open_pages(bytes: &[u8]) -> (r: Result<TiffPages, String>)
    ensures
        r is Ok <==> tiff_open_error(bytes@) is None,
        r is Ok ==> tiff_bytes(r->Ok_0) == bytes@ && tiff_index(r->Ok_0) == 0,
        r is Err ==> tiff_open_error(bytes@) == Some(r->Err_0@),
{
    let reader = std::io::BufReader::new(std::io::Cursor::new(bytes.to_vec()));
    match tiff::decoder::Decoder::new(reader) {
        Ok(decoder) => Ok(TiffPages { decoder }),
        Err(error) => Err(error.to_string()),
    }
}

/// Whether another page follows: `tiff`'s `Decoder::more_images`.
///
/// Claims that the bytes and the page at hand decide.
#[verifier::external_body]
fn more_pages(pages: &TiffPages) -> (r: bool)
    ensures
        r == tiff_has_next(tiff_bytes(*pages), tiff_index(*pages)),
{
    pages.decoder.more_images()
}

/// Goes to the next page: `tiff`'s `Decoder::next_image`.
///
/// Claims that the bytes and the page at hand decide whether this succeeds. Which page is at hand
/// after a failure is left open.
#[verifier::external_body]
fn next_page(pages: &mut TiffPages) -> (r: Result<(), String>)
    ensures
        r is Ok <==> tiff_next_error(tiff_bytes(*old(pages)), tiff_index(*old(pages))) is None,
        r is Ok ==> tiff_bytes(*final(pages)) == tiff_bytes(*old(pages)) && tiff_index(
            *final(pages),
        ) == tiff_index(*old(pages)) + 1,
        r is Err ==> tiff_next_error(tiff_bytes(*old(pages)), tiff_index(*old(pages))) == Some(
            r->Err_0@,
        ),
{
    pages.decoder.next_image().map_err(|error| error.to_string())
}

/// Width and height of the page at hand: `tiff`'s `Decoder::dimensions`.
///
/// Claims that the bytes and the page decide, and that the page stays at hand.
#[verifier::external_body]
fn page_dimensions(pages: &mut TiffPages) -> (r: Result<(u32, u32), String>)
    ensures
        text_result(r) == tiff_dimensions(tiff_bytes(*old(pages)), tiff_index(*old(pages))),
        tiff_bytes(*final(pages)) == tiff_bytes(*old(pages)),
        tiff_index(*final(pages)) == tiff_index(*old(pages)),
{
    pages.decoder.dimensions().map_err(|error| error.to_string())
}

/// How the samples of the page at hand are to be taken: `tiff`'s `Decoder::colortype`.
///
/// Claims that the bytes and the page decide, and that the page stays at hand.
#[verifier::external_body]
fn page_color(pages: &mut TiffPages) -> (r: Result<TiffColor, String>)
    ensures
        text_result(r) == tiff_color(tiff_bytes(*old(pages)), tiff_index(*old(pages))),
        tiff_bytes(*final(pages)) == tiff_bytes(*old(pages)),
        tiff_index(*final(pages)) == tiff_index(*old(pages)),
{
    match pages.decoder.colortype() {
        Ok(tiff::ColorType::Gray(bits)) => Ok(TiffColor::Gray(bits)),
        Ok(tiff::ColorType::RGB(bits)) => Ok(TiffColor::Rgb(bits)),
        Ok(tiff::ColorType::RGBA(bits)) => Ok(TiffColor::Rgba(bits)),
        Ok(_) => Ok(TiffColor::Other),
        Err(error) => Err(error.to_string()),
    }
}

/// The samples of the page at hand: `tiff`'s `Decoder::read_image`.
///
/// Claims that the bytes and the page decide.
#[verifier::external_body]
fn page_samples(pages: &mut TiffPages) -> (r: Result<TiffSamples, String>)
    ensures
        samples_result(r) == tiff_samples(tiff_bytes(*old(pages)), tiff_index(*old(pages))),
{
    match pages.decoder.read_image() {
        Ok(tiff::decoder::DecodingResult::U8(samples)) => Ok(TiffSamples::U8(samples)),
        Ok(tiff::decoder::DecodingResult::U16(samples)) => Ok(TiffSamples::U16(samples)),
        Ok(_) => Ok(TiffSamples::Other),
        Err(error) => Err(error.to_string()),
    }
}

// ---- samples to pixels ----
/// The high byte of a sample.
pub open spec fn high(v: u16) -> u8 {
    (v / 256) as u8
}

/// The bytes of a page's pixels: grey three times over, color as it is, alpha dropped; of wide
/// samples the high byte. Nothing for other samples.
pub open spec fn rgb_bytes(samples: SamplesModel, color: TiffColor) -> Option<Seq<u8>> {
    match (samples, color) {
        (SamplesModel::U8(s), TiffColor::Gray(8)) => Some(
            Seq::new(3 * s.len(), |i: int| s[i / 3]),
        ),
        (SamplesModel::U16(s), TiffColor::Gray(16)) => Some(
            Seq::new(3 * s.len(), |i: int| high(s[i / 3])),
        ),
        (SamplesModel::U8(s), TiffColor::Rgb(8)) => Some(s),
        (SamplesModel::U16(s), TiffColor::Rgb(16)) => Some(
            Seq::new(s.len(), |i: int| high(s[i])),
        ),
        (SamplesModel::U8(s), TiffColor::Rgba(8)) => Some(
            Seq::new(3 * (s.len() / 4), |i: int| s[4 * (i / 3) + i % 3]),
        ),
        (SamplesModel::U16(s), TiffColor::Rgba(16)) => Some(
            Seq::new(3 * (s.len() / 4), |i: int| high(s[4 * (i / 3) + i % 3])),
        ),
        _ => None,
    }
}

/// The image of a page.
pub open spec fn page_image(
    samples: SamplesModel,
    color: TiffColor,
    width: u32,
    height: u32,
) -> Result<ImageModel, ErrorModel> {
    match rgb_bytes(samples, color) {
        Some(pixels) => Ok(ImageModel { pixels, width, height }),
        None => Err(
            ErrorModel::DecodeUnsupportedFormat(
                "TIFF pixel format is unsupported; only Gray/RGB/RGBA 8-bit and 16-bit images are supported"@,
            ),
        ),
    }
}

/// High bytes of wide samples.
fn high_bytes(samples: &Vec<u16>) -> (r: Vec<u8>)
    ensures
        r@ == Seq::new(samples@.len(), |i: int| high(samples@[i])),
{
    let mut r: Vec<u8> = Vec::new();
    let mut i: usize = 0;
    while i < samples.len()
        invariant
            i <= samples@.len(),
            r@.len() == i,
            forall|k: int| 0 <= k < i ==> #[trigger] r@[k] == high(samples@[k]),
        decreases samples@.len() - i,
    {
        let v: u16 = samples[i] / 256;
        r.push(v as u8);
        i = i + 1;
    }
    assert(r@ =~= Seq::new(samples@.len(), |i: int| high(samples@[i])));
    r
}

/// Every sample three times over.
fn tripled(samples: &Vec<u8>) -> (r: Vec<u8>)
    ensures
        r@ == Seq::new(3 * samples@.len(), |i: int| samples@[i / 3]),
{
    let mut r: Vec<u8> = Vec::new();
    let mut i: usize = 0;
    while i < samples.len()
        invariant
            i <= samples@.len(),
            r@.len() == 3 * i,
            forall|k: int| 0 <= k < 3 * i ==> #[trigger] r@[k] == samples@[k / 3],
        decreases samples@.len() - i,
    {
        r.push(samples[i]);
        r.push(samples[i]);
        r.push(samples[i]);
        i = i + 1;
    }
    assert(r@ =~= Seq::new(3 * samples@.len(), |i: int| samples@[i / 3]));
    r
}

/// The first three of every four samples.
pub fn without_alpha(samples: &Vec<u8>) -> (r: Vec<u8>)
    ensures
        r@ == Seq::new(3 * (samples@.len() / 4), |i: int| samples@[4 * (i / 3) + i % 3]),
{
    let mut r: Vec<u8> = Vec::new();
    let total: usize = samples.len();
    let n: usize = total / 4;
    let mut i: usize = 0;
    while i < n
        invariant
            i <= n,
            n == total / 4,
            total == samples@.len(),
            r@.len() == 3 * i,
            forall|k: int| 0 <= k < 3 * i ==> #[trigger] r@[k] == samples@[4 * (k / 3) + k % 3],
        decreases n - i,
    {
        r.push(samples[4 * i]);
        r.push(samples[4 * i + 1]);
        r.push(samples[4 * i + 2]);
        i = i + 1;
    }
    assert(r@ =~= Seq::new(
        3 * (samples@.len() / 4),
        |i: int| samples@[4 * (i / 3) + i % 3],
    ));
    r
}

/// The image of a page.
pub fn tiff_to_rgb(samples: TiffSamples, color: TiffColor, width: u32, height: u32) -> (r: Result<
    DecodedImage,
    CrabMagickError,
>)
    ensures
        image_result(r) == page_image(samples@, color, width, height),
{
    let ghost model = samples@;
    let pixels: Option<Vec<u8>> = match samples {
        TiffSamples::U8(s) => match color {
            TiffColor::Gray(bits) => if bits == 8 {
                Some(tripled(&s))
            } else {
                None
            },
            TiffColor::Rgb(bits) => if bits == 8 {
                Some(s)
            } else {
                None
            },
            TiffColor::Rgba(bits) => if bits == 8 {
                Some(without_alpha(&s))
            } else {
                None
            },
            TiffColor::Other => None,
        },
        TiffSamples::U16(s) => {
            let bytes: Vec<u8> = high_bytes(&s);
            match color {
                TiffColor::Gray(bits) => if bits == 16 {
                    let r: Vec<u8> = tripled(&bytes);
                    assert(r@ =~= rgb_bytes(model, color)->Some_0);
                    Some(r)
                } else {
                    None
                },
                TiffColor::Rgb(bits) => if bits == 16 {
                    Some(bytes)
                } else {
                    None
                },
                TiffColor::Rgba(bits) => if bits == 16 {
                    let r: Vec<u8> = without_alpha(&bytes);
                    assert(r@ =~= rgb_bytes(model, color)->Some_0);
                    Some(r)
                } else {
                    None
                },
                TiffColor::Other => None,
            }
        },
        TiffSamples::Other => None,
    };
    match pixels {
        Some(pixels) => Ok(DecodedImage { pixels, width, height }),
        None => Err(
            CrabMagickError::decode_unsupported_format(
                "TIFF pixel format is unsupported; only Gray/RGB/RGBA 8-bit and 16-bit images are supported",
            ),
        ),
    }
}

// ---- pages ----
/// Why the page `steps` pages behind the one of an index cannot be reached, if it cannot.
pub open spec fn advance_error(bytes: Seq<u8>, index: nat, steps: nat, page: nat) -> Option<
    ErrorModel,
>
    decreases steps,
{
    if steps == 0 {
        None
    } else if !tiff_has_next(bytes, index) {
        Some(
            ErrorModel::DecodeMalformed(
                "TIFF page index "@ + decimal(page) + " is out of range for this file"@,
            ),
        )
    } else {
        match tiff_next_error(bytes, index) {
            Some(why) => Some(failed("TIFF page advance failed: "@, why)),
            None => advance_error(bytes, index + 1, (steps - 1) as nat, page),
        }
    }
}

/// The image of a page of a file.
pub open spec fn tiff_page(bytes: Seq<u8>, page: nat) -> Result<ImageModel, ErrorModel> {
    match tiff_open_error(bytes) {
        Some(why) => Err(failed("TIFF decoder initialization failed: "@, why)),
        None => match advance_error(bytes, 0, page, page) {
            Some(error) => Err(error),
            None => match tiff_dimensions(bytes, page) {
                Err(why) => Err(failed("TIFF dimension read failed: "@, why)),
                Ok(size) => match tiff_color(bytes, page) {
                    Err(why) => Err(failed("TIFF color-type read failed: "@, why)),
                    Ok(color) => match tiff_samples(bytes, page) {
                        Err(why) => Err(failed("TIFF pixel decode failed: "@, why)),
                        Ok(samples) => page_image(samples, color, size.0, size.1),
                    },
                },
            },
        },
    }
}

/// The first page of a file has these pixels.
pub open spec fn tiff_holds(bytes: Seq<u8>, pixels: Seq<u8>, width: u32, height: u32) -> bool {
    &&& tiff_open_error(bytes) is None
    &&& tiff_dimensions(bytes, 0) == Ok::<(u32, u32), Seq<char>>((width, height))
    &&& tiff_color(bytes, 0) == Ok::<TiffColor, Seq<char>>(TiffColor::Rgb(8))
    &&& tiff_samples(bytes, 0) == Ok::<SamplesModel, Seq<char>>(SamplesModel::U8(pixels))
}

fn page_out_of_range(page: u32) -> (r: CrabMagickError)
    ensures
        r@ == ErrorModel::DecodeMalformed(
            "TIFF page index "@ + decimal(page as nat) + " is out of range for this file"@,
        ),
{
    let mut text: String = "TIFF page index ".to_owned();
    push_decimal(&mut text, page as usize);
    text.append(" is out of range for this file");
    CrabMagickError::DecodeMalformed(text)
}

/// Goes from the first page to the one of an index.
fn advance(pages: &mut TiffPages, page: u32) -> (r: Result<(), CrabMagickError>)
    requires
        tiff_index(*old(pages)) == 0,
    ensures
        r is Ok <==> advance_error(tiff_bytes(*old(pages)), 0, page as nat, page as nat) is None,
        r is Ok ==> tiff_bytes(*final(pages)) == tiff_bytes(*old(pages)) && tiff_index(
            *final(pages),
        ) == page,
        r is Err ==> advance_error(tiff_bytes(*old(pages)), 0, page as nat, page as nat) == Some(
            r->Err_0@,
        ),
{
    let ghost bytes = tiff_bytes(*pages);
    let mut done: u32 = 0;
    while done < page
        invariant
            done <= page,
            bytes == tiff_bytes(*old(pages)),
            tiff_bytes(*pages) == bytes,
            tiff_index(*pages) == done,
            advance_error(bytes, 0, page as nat, page as nat) == advance_error(
                bytes,
                done as nat,
                (page - done) as nat,
                page as nat,
            ),
        decreases page - done,
    {
        if !more_pages(pages) {
            return Err(page_out_of_range(page));
        }
        match next_page(pages) {
            Ok(_) => {},
            Err(why) => {
                return Err(malformed("TIFF page advance failed: ", &why));
            },
        }
        done = done + 1;
    }
    Ok(())
}

/// Decodes a page of a TIFF file.
pub fn decode_tiff_page(bytes: &[u8], page: u32) -> (r: Result<DecodedImage, CrabMagickError>)
    ensures
        image_result(r) == tiff_page(bytes@, page as nat),
{
    let mut pages: TiffPages = match open_pages(bytes) {
        Ok(pages) => pages,
        Err(why) => {
            return Err(malformed("TIFF decoder initialization failed: ", &why));
        },
    };
    match advance(&mut pages, page) {
        Ok(_) => {},
        Err(error) => {
            return Err(error);
        },
    }
    let (width, height): (u32, u32) = match page_dimensions(&mut pages) {
        Ok(size) => size,
        Err(why) => {
            return Err(malformed("TIFF dimension read failed: ", &why));
        },
    };
    let color: TiffColor = match page_color(&mut pages) {
        Ok(color) => color,
        Err(why) => {
            return Err(malformed("TIFF color-type read failed: ", &why));
        },
    };
    let samples: TiffSamples = match page_samples(&mut pages) {
        Ok(samples) => samples,
        Err(why) => {
            return Err(malformed("TIFF pixel decode failed: ", &why));
        },
    };
    tiff_to_rgb(samples, color, width, height)
}

} // verus!
