//! Source formats and how they are told apart by their first bytes.
use vstd::prelude::*;

verus! {

/// Source formats.
#[derive(Debug, Clone, Copy, PartialEq, Eq, Structural)]
pub enum SourceFormat {
    /// JPEG XL, container or codestream.
    Jxl,
    /// JPEG.
    Jpeg,
    /// PNG.
    Png,
    /// WebP.
    Webp,
    /// TIFF.
    Tiff,
    /// GIF.
    Gif,
    /// BMP.
    Bmp,
    /// PDF.
    Pdf,
    /// SVG.
    Svg,
    /// AVIF.
    Avif,
    /// None of these.
    Unknown,
}

/// How many bytes are searched for SVG markup.
pub const PROBE_LEN: usize = 1024;

/// The data has the given bytes at an offset.
pub open spec fn has_at(data: Seq<u8>, at: int, magic: Seq<u8>) -> bool {
    0 <= at && at + magic.len() <= data.len() && data.subrange(at, at + magic.len()) == magic
}

/// A byte with an ASCII capital turned into its small letter.
pub open spec fn lower(b: u8) -> u8 {
    if 0x41 <= b <= 0x5A {
        (b + 32) as u8
    } else {
        b
    }
}

/// The data in small letters.
pub open spec fn lowered(data: Seq<u8>) -> Seq<u8> {
    data.map_values(|b: u8| lower(b))
}

/// Position of the first byte, from `at` on, behind white space and byte order marks.
pub open spec fn skip_blank(data: Seq<u8>, at: int) -> int
    decreases data.len() - at,
{
    if at < 0 || at >= data.len() {
        at
    } else if data[at] == 0x20 || data[at] == 0x09 || data[at] == 0x0D || data[at] == 0x0A {
        skip_blank(data, at + 1)
    } else if has_at(data, at, seq![0xEFu8, 0xBB, 0xBF]) {
        skip_blank(data, at + 3)
    } else {
        at
    }
}

/// `<svg`
pub open spec fn svg_tag() -> Seq<u8> {
    seq![0x3Cu8, 0x73, 0x76, 0x67]
}

/// `<?xml`
pub open spec fn xml_tag() -> Seq<u8> {
    seq![0x3Cu8, 0x3F, 0x78, 0x6D, 0x6C]
}

/// The bytes that are searched for SVG markup, in small letters.
pub open spec fn probe_of(data: Seq<u8>) -> Seq<u8> {
    lowered(
        if data.len() < PROBE_LEN {
            data
        } else {
            data.subrange(0, PROBE_LEN as int)
        },
    )
}

/// The bytes occur somewhere.
pub open spec fn has(data: Seq<u8>, magic: Seq<u8>) -> bool {
    exists|at: int| #[trigger] has_at(data, at, magic)
}

/// The data starts as SVG markup does: with the tag itself, or with an XML declaration and the
/// tag somewhere behind it.
pub open spec fn is_svg(data: Seq<u8>) -> bool {
    let probe = probe_of(data);
    let start = skip_blank(probe, 0);
    ||| has_at(probe, start, svg_tag())
    ||| has_at(probe, start, xml_tag()) && has(probe, svg_tag())
}

/// The format that the first bytes give away; the first match counts.
pub open spec fn format_of(d: Seq<u8>) -> SourceFormat {
    if has_at(d, 0, seq![0xFFu8, 0x0A]) {
        SourceFormat::Jxl
    } else if has_at(d, 0, seq![0u8, 0, 0]) && has_at(d, 4, seq![0x4Au8, 0x58, 0x4C, 0x20]) {
        SourceFormat::Jxl
    } else if has_at(d, 0, seq![0xFFu8, 0xD8, 0xFF]) {
        SourceFormat::Jpeg
    } else if has_at(d, 0, seq![0x89u8, 0x50, 0x4E, 0x47]) {
        SourceFormat::Png
    } else if has_at(d, 0, seq![0x52u8, 0x49, 0x46, 0x46]) && has_at(
        d,
        8,
        seq![0x57u8, 0x45, 0x42, 0x50],
    ) {
        SourceFormat::Webp
    } else if has_at(d, 0, seq![0x49u8, 0x49, 0x2A, 0x00]) || has_at(
        d,
        0,
        seq![0x4Du8, 0x4D, 0x00, 0x2A],
    ) {
        SourceFormat::Tiff
    } else if has_at(d, 0, seq![0x47u8, 0x49, 0x46, 0x38]) {
        SourceFormat::Gif
    } else if has_at(d, 0, seq![0x42u8, 0x4D]) {
        SourceFormat::Bmp
    } else if has_at(d, 0, seq![0x25u8, 0x50, 0x44, 0x46, 0x2D]) {
        SourceFormat::Pdf
    } else if has_at(d, 4, seq![0x66u8, 0x74, 0x79, 0x70]) && (has_at(
        d,
        8,
        seq![0x61u8, 0x76, 0x69, 0x66],
    ) || has_at(d, 8, seq![0x61u8, 0x76, 0x69, 0x73])) {
        SourceFormat::Avif
    } else if is_svg(d) {
        SourceFormat::Svg
    } else {
        SourceFormat::Unknown
    }
}

fn found_at(data: &[u8], at: usize, magic: &[u8]) -> (r: bool)
    ensures
        r == has_at(data@, at as int, magic@),
{
    let total: usize = data.len();
    if at > total || magic.len() > total - at {
        return false;
    }
    let mut i: usize = 0;
    while i < magic.len()
        invariant
            i <= magic@.len(),
            at + magic@.len() <= data@.len(),
            data@.len() == total,
            forall|k: int| 0 <= k < i ==> data@[at + k] == magic@[k],
        decreases magic@.len() - i,
    {
        if data[at + i] != magic[i] {
            assert(data@.subrange(at as int, at + magic@.len())[i as int] != magic@[i as int]);
            return false;
        }
        i = i + 1;
    }
    assert(data@.subrange(at as int, at + magic@.len()) =~= magic@);
    true
}

/// The first bytes in small letters.
fn lowered_probe(data: &[u8]) -> (r: Vec<u8>)
    ensures
        r@ == probe_of(data@),
{
    let n: usize = if data.len() < PROBE_LEN {
        data.len()
    } else {
        PROBE_LEN
    };
    let mut r: Vec<u8> = Vec::new();
    let mut i: usize = 0;
    while i < n
        invariant
            i <= n <= data@.len(),
            r@.len() == i,
            forall|k: int| 0 <= k < i ==> #[trigger] r@[k] == lower(data@[k]),
        decreases n - i,
    {
        let b: u8 = data[i];
        r.push(
            if b >= 0x41 && b <= 0x5A {
                b + 32
            } else {
                b
            },
        );
        i = i + 1;
    }
    assert(r@ =~= probe_of(data@));
    r
}

/// Position of the first byte behind white space and byte order marks.
fn blank_end(data: &[u8]) -> (r: usize)
    ensures
        r == skip_blank(data@, 0),
        r <= data@.len(),
{
    let mark: [u8; 3] = [0xEF, 0xBB, 0xBF];
    assert(mark@ =~= seq![0xEFu8, 0xBB, 0xBF]);
    let mut at: usize = 0;
    while at < data.len()
        invariant
            at <= data@.len(),
            mark@ == seq![0xEFu8, 0xBB, 0xBF],
            skip_blank(data@, at as int) == skip_blank(data@, 0),
        decreases data@.len() - at,
    {
        let b: u8 = data[at];
        if b == 0x20 || b == 0x09 || b == 0x0D || b == 0x0A {
            at = at + 1;
        } else if found_at(data, at, mark.as_slice()) {
            at = at + 3;
        } else {
            return at;
        }
    }
    at
}

/// Whether the bytes occur anywhere.
fn occurs(data: &[u8], magic: &[u8]) -> (r: bool)
    requires
        magic@.len() >= 1,
    ensures
        r == has(data@, magic@),
{
    let mut at: usize = 0;
    while at < data.len()
        invariant
            at <= data@.len(),
            magic@.len() >= 1,
            forall|k: int| 0 <= k < at ==> !#[trigger] has_at(data@, k, magic@),
        decreases data@.len() - at,
    {
        if found_at(data, at, magic) {
            assert(has_at(data@, at as int, magic@));
            return true;
        }
        at = at + 1;
    }
    assert forall|k: int| !#[trigger] has_at(data@, k, magic@) by {
        if has_at(data@, k, magic@) {
            assert(k < data@.len());
        }
    }
    false
}

fn looks_like_svg(data: &[u8]) -> (r: bool)
    ensures
        r == is_svg(data@),
{
    let svg: [u8; 4] = [0x3C, 0x73, 0x76, 0x67];
    let xml: [u8; 5] = [0x3C, 0x3F, 0x78, 0x6D, 0x6C];
    assert(svg@ =~= svg_tag());
    assert(xml@ =~= xml_tag());
    let probe: Vec<u8> = lowered_probe(data);
    let start: usize = blank_end(probe.as_slice());
    if found_at(probe.as_slice(), start, svg.as_slice()) {
        return true;
    }
    found_at(probe.as_slice(), start, xml.as_slice()) && occurs(probe.as_slice(), svg.as_slice())
}

/// Detects the source format from the first bytes.
pub fn detect_format(bytes: &[u8]) -> (r: SourceFormat)
    ensures
        r == format_of(bytes@),
{
    let jxl: [u8; 2] = [0xFF, 0x0A];
    let zeros: [u8; 3] = [0, 0, 0];
    let jxl_box: [u8; 4] = [0x4A, 0x58, 0x4C, 0x20];
    let jpeg: [u8; 3] = [0xFF, 0xD8, 0xFF];
    let png: [u8; 4] = [0x89, 0x50, 0x4E, 0x47];
    let riff: [u8; 4] = [0x52, 0x49, 0x46, 0x46];
    let webp: [u8; 4] = [0x57, 0x45, 0x42, 0x50];
    let tiff_le: [u8; 4] = [0x49, 0x49, 0x2A, 0x00];
    let tiff_be: [u8; 4] = [0x4D, 0x4D, 0x00, 0x2A];
    let gif: [u8; 4] = [0x47, 0x49, 0x46, 0x38];
    let bmp: [u8; 2] = [0x42, 0x4D];
    let pdf: [u8; 5] = [0x25, 0x50, 0x44, 0x46, 0x2D];
    let ftyp: [u8; 4] = [0x66, 0x74, 0x79, 0x70];
    let avif: [u8; 4] = [0x61, 0x76, 0x69, 0x66];
    let avis: [u8; 4] = [0x61, 0x76, 0x69, 0x73];
    proof {
        assert(jxl@ =~= seq![0xFFu8, 0x0A]);
        assert(zeros@ =~= seq![0u8, 0, 0]);
        assert(jxl_box@ =~= seq![0x4Au8, 0x58, 0x4C, 0x20]);
        assert(jpeg@ =~= seq![0xFFu8, 0xD8, 0xFF]);
        assert(png@ =~= seq![0x89u8, 0x50, 0x4E, 0x47]);
        assert(riff@ =~= seq![0x52u8, 0x49, 0x46, 0x46]);
        assert(webp@ =~= seq![0x57u8, 0x45, 0x42, 0x50]);
        assert(tiff_le@ =~= seq![0x49u8, 0x49, 0x2A, 0x00]);
        assert(tiff_be@ =~= seq![0x4Du8, 0x4D, 0x00, 0x2A]);
        assert(gif@ =~= seq![0x47u8, 0x49, 0x46, 0x38]);
        assert(bmp@ =~= seq![0x42u8, 0x4D]);
        assert(pdf@ =~= seq![0x25u8, 0x50, 0x44, 0x46, 0x2D]);
        assert(ftyp@ =~= seq![0x66u8, 0x74, 0x79, 0x70]);
        assert(avif@ =~= seq![0x61u8, 0x76, 0x69, 0x66]);
        assert(avis@ =~= seq![0x61u8, 0x76, 0x69, 0x73]);
    }
    if found_at(bytes, 0, jxl.as_slice()) {
        return SourceFormat::Jxl;
    }
    if found_at(bytes, 0, zeros.as_slice()) && found_at(bytes, 4, jxl_box.as_slice()) {
        return SourceFormat::Jxl;
    }
    if found_at(bytes, 0, jpeg.as_slice()) {
        return SourceFormat::Jpeg;
    }
    if found_at(bytes, 0, png.as_slice()) {
        return SourceFormat::Png;
    }
    if found_at(bytes, 0, riff.as_slice()) && found_at(bytes, 8, webp.as_slice()) {
        return SourceFormat::Webp;
    }
    if found_at(bytes, 0, tiff_le.as_slice()) || found_at(bytes, 0, tiff_be.as_slice()) {
        return SourceFormat::Tiff;
    }
    if found_at(bytes, 0, gif.as_slice()) {
        return SourceFormat::Gif;
    }
    if found_at(bytes, 0, bmp.as_slice()) {
        return SourceFormat::Bmp;
    }
    if found_at(bytes, 0, pdf.as_slice()) {
        return SourceFormat::Pdf;
    }
    if found_at(bytes, 4, ftyp.as_slice()) && (found_at(bytes, 8, avif.as_slice()) || found_at(
        bytes,
        8,
        avis.as_slice(),
    )) {
        return SourceFormat::Avif;
    }
    if looks_like_svg(bytes) {
        return SourceFormat::Svg;
    }
    SourceFormat::Unknown
}

/// A full image of the format is worth keeping.
pub open spec fn cacheable(format: SourceFormat) -> bool {
    !(format is Pdf || format is Svg || format is Unknown)
}

/// Whether a decoded image is worth keeping: it is whole, and its format is not rendered to size.
pub fn cacheable_full_decode(
    format: SourceFormat,
    region: Option<(u32, u32, u32, u32)>,
    square: bool,
) -> (r: bool)
    ensures
        r == (region is None && !square && cacheable(format)),
{
    region.is_none() && !square && match format {
        SourceFormat::Pdf | SourceFormat::Svg | SourceFormat::Unknown => false,
        _ => true,
    }
}

} // verus!
