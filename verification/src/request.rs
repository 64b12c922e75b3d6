//! Requests, encoder options, errors and the steps of processing one image.
use crate::text::{decimal, push_decimal};
use vstd::prelude::*;
use vstd::string::StringExecFns;

verus! {

/// Output codecs.
#[derive(Debug, Clone, Copy, PartialEq, Eq, Structural)]
pub enum OutputFormat {
    /// Baseline JPEG.
    Jpeg,
    /// Lossy WebP.
    Webp,
    /// Lossless WebP.
    WebpLossless,
    /// PNG.
    Png,
    /// JPEG XL.
    Jxl,
    /// AVIF.
    Avif,
    /// TIFF.
    Tiff,
    /// GIF with a palette of at most 256 colors.
    Gif,
    /// Uncompressed BMP.
    Bmp,
}

/// JPEG chroma subsampling.
#[derive(Debug, Clone, Copy, PartialEq, Eq, Structural)]
pub enum ChromaSubsampling {
    /// 4:2:0 below quality 90, 4:4:4 from there on.
    Auto,
    /// 4:2:0.
    Cs420,
    /// 4:2:2.
    Cs422,
    /// 4:4:4.
    Cs444,
}

/// PNG row filter selection.
#[derive(Debug, Clone, Copy, PartialEq, Eq, Structural)]
pub enum PngFilter {
    /// No filtering.
    NoFilter,
    /// Sub filter.
    Sub,
    /// Up filter.
    Up,
    /// Average filter.
    Avg,
    /// Paeth filter.
    Paeth,
    /// All filters.
    All,
}

/// TIFF compression selection.
#[derive(Debug, Clone, Copy, PartialEq, Eq, Structural)]
pub enum TiffCompression {
    /// No compression.
    Uncompressed,
    /// LZW.
    Lzw,
    /// Deflate.
    Deflate,
    /// JPEG, which the encoder does not have: asking for it is an error.
    Jpeg,
    /// PackBits.
    Packbits,
}

/// JPEG encoder configuration.
#[derive(Debug, Clone, Copy)]
pub struct JpegEncodeOptions {
    /// Quality, 1 to 100.
    pub quality: u8,
    /// Progressive scans.
    pub progressive: bool,
    /// Chroma subsampling.
    pub chroma_subsampling: ChromaSubsampling,
    /// Restart interval.
    pub restart_interval: u16,
    /// Optimal Huffman tables; progressive scans always use them.
    pub optimize_huffman: bool,
}

impl Default for JpegEncodeOptions {
    fn default() -> (r: Self)
        ensures
            r == (JpegEncodeOptions {
                quality: 85,
                progressive: false,
                chroma_subsampling: ChromaSubsampling::Auto,
                restart_interval: 0,
                optimize_huffman: false,
            }),
    {
        JpegEncodeOptions {
            quality: 85,
            progressive: false,
            chroma_subsampling: ChromaSubsampling::Auto,
            restart_interval: 0,
            optimize_huffman: false,
        }
    }
}

/// WebP encoder configuration.
#[derive(Debug, Clone, Copy)]
pub struct WebpEncodeOptions {
    /// Quality, 0 to 100.
    pub quality: u8,
    /// Lossless encoding.
    pub lossless: bool,
    /// Near-lossless preprocessing where the encoder has it; this one has none.
    pub near_lossless: bool,
    /// Effort hint, 0 to 6; the encoder has one effort.
    pub effort: u8,
    /// Alpha quality, 0 to 100, for images with alpha; there are none.
    pub alpha_quality: u8,
}

impl Default for WebpEncodeOptions {
    fn default() -> (r: Self)
        ensures
            r == (WebpEncodeOptions {
                quality: 80,
                lossless: false,
                near_lossless: false,
                effort: 4,
                alpha_quality: 100,
            }),
    {
        WebpEncodeOptions {
            quality: 80,
            lossless: false,
            near_lossless: false,
            effort: 4,
            alpha_quality: 100,
        }
    }
}

/// PNG encoder configuration.
#[derive(Debug, Clone, Copy)]
pub struct PngEncodeOptions {
    /// Compression level, 0 to 9.
    pub compression: u8,
    /// A hint to interlace; the encoder writes rows in order.
    pub progressive: bool,
    /// Row filter strategy.
    pub filter: PngFilter,
    /// Bit depth, 8 or 16.
    pub bitdepth: u8,
}

impl Default for PngEncodeOptions {
    fn default() -> (r: Self)
        ensures
            r == (PngEncodeOptions {
                compression: 6,
                progressive: false,
                filter: PngFilter::All,
                bitdepth: 8,
            }),
    {
        PngEncodeOptions {
            compression: 6,
            progressive: false,
            filter: PngFilter::All,
            bitdepth: 8,
        }
    }
}

/// JPEG XL encoder configuration.
#[derive(Debug, Clone, Copy)]
pub struct JxlEncodeOptions {
    /// Quality, 0 to 100, for when there is no distance.
    pub quality: u8,
    /// Butteraugli distance: the bits of a single-precision float.
    pub distance: Option<u32>,
    /// Effort, 1 to 9.
    pub effort: u8,
    /// Lossless mode.
    pub lossless: bool,
    /// Decode-speed tier hint, 0 to 4.
    pub tier: u8,
}

impl Default for JxlEncodeOptions {
    fn default() -> (r: Self)
        ensures
            r == (JxlEncodeOptions {
                quality: 75,
                distance: None,
                effort: 7,
                lossless: false,
                tier: 0,
            }),
    {
        JxlEncodeOptions {
            quality: 75,
            distance: None,
            effort: 7,
            lossless: false,
            tier: 0,
        }
    }
}

/// TIFF encoder configuration.
#[derive(Debug, Clone, Copy)]
pub struct TiffEncodeOptions {
    /// Compression method.
    pub compression: TiffCompression,
    /// Quality of JPEG compression, which the encoder does not have.
    pub quality: u8,
    /// Horizontal differencing for LZW and Deflate.
    pub predictor: bool,
    /// A hint to write tiles; the encoder writes strips.
    pub tiled: bool,
    /// Tile width, where tiles are written.
    pub tile_width: u16,
    /// Tile height, where tiles are written.
    pub tile_height: u16,
}

impl Default for TiffEncodeOptions {
    fn default() -> (r: Self)
        ensures
            r == (TiffEncodeOptions {
                compression: TiffCompression::Lzw,
                quality: 75,
                predictor: true,
                tiled: false,
                tile_width: 128,
                tile_height: 128,
            }),
    {
        TiffEncodeOptions {
            compression: TiffCompression::Lzw,
            quality: 75,
            predictor: true,
            tiled: false,
            tile_width: 128,
            tile_height: 128,
        }
    }
}

/// GIF encoder configuration.
#[derive(Debug, Clone, Copy)]
pub struct GifEncodeOptions {
    /// A hint of dither strength, 0 to 1: the bits of a single-precision float. The encoder does
    /// not dither.
    pub dither: u32,
    /// Effort, 1 to 10.
    pub effort: u8,
    /// A hint of the palette's bit depth, 1 to 8; the encoder makes palettes as large as they need
    /// to be.
    pub bitdepth: u8,
}

impl Default for GifEncodeOptions {
    fn default() -> (r: Self)
        ensures
            r == (GifEncodeOptions {
                dither: 0x3F80_0000,
                effort: 7,
                bitdepth: 8,
            }),
    {
        GifEncodeOptions {
            dither: 0x3F80_0000,
            effort: 7,
            bitdepth: 8,
        }
    }
}

/// AVIF encoder configuration.
#[derive(Debug, Clone, Copy)]
pub struct AvifEncodeOptions {
    /// Quality, 1 to 100.
    pub quality: u8,
    /// Lossless output where the encoder has it; this one has none.
    pub lossless: bool,
    /// Effort, 1 to 10.
    pub effort: u8,
}

impl Default for AvifEncodeOptions {
    fn default() -> (r: Self)
        ensures
            r == (AvifEncodeOptions {
                quality: 80,
                lossless: false,
                effort: 4,
            }),
    {
        AvifEncodeOptions {
            quality: 80,
            lossless: false,
            effort: 4,
        }
    }
}

/// Encoder options of one format.
#[derive(Debug, Clone)]
pub enum EncodeOptions {
    /// JPEG options.
    Jpeg(JpegEncodeOptions),
    /// WebP options.
    Webp(WebpEncodeOptions),
    /// PNG options.
    Png(PngEncodeOptions),
    /// JPEG XL options.
    Jxl(JxlEncodeOptions),
    /// AVIF options.
    Avif(AvifEncodeOptions),
    /// TIFF options.
    Tiff(TiffEncodeOptions),
    /// GIF options.
    Gif(GifEncodeOptions),
    /// BMP has none.
    Bmp,
}

/// Options for a format and a quality: what a format has besides keeps its default.
pub open spec fn options_for(format: OutputFormat, quality: u8) -> EncodeOptions {
    match format {
        OutputFormat::Jpeg => EncodeOptions::Jpeg(
            JpegEncodeOptions {
                quality: quality,
                progressive: false,
                chroma_subsampling: ChromaSubsampling::Auto,
                restart_interval: 0,
                optimize_huffman: false,
            },
        ),
        OutputFormat::Webp => EncodeOptions::Webp(webp_options(quality, false)),
        OutputFormat::WebpLossless => EncodeOptions::Webp(webp_options(quality, true)),
        OutputFormat::Png => EncodeOptions::Png(
            PngEncodeOptions {
                compression: 6,
                progressive: false,
                filter: PngFilter::All,
                bitdepth: 8,
            },
        ),
        OutputFormat::Jxl => EncodeOptions::Jxl(
            JxlEncodeOptions {
                quality: quality,
                distance: None,
                effort: 7,
                lossless: false,
                tier: 0,
            },
        ),
        OutputFormat::Avif => EncodeOptions::Avif(
            AvifEncodeOptions { quality: quality, lossless: false, effort: 4 },
        ),
        OutputFormat::Tiff => EncodeOptions::Tiff(
            TiffEncodeOptions {
                compression: TiffCompression::Lzw,
                quality: 75,
                predictor: true,
                tiled: false,
                tile_width: 128,
                tile_height: 128,
            },
        ),
        OutputFormat::Gif => EncodeOptions::Gif(
            GifEncodeOptions { dither: 0x3F80_0000, effort: 7, bitdepth: 8 },
        ),
        OutputFormat::Bmp => EncodeOptions::Bmp,
    }
}

/// WebP options for a quality.
pub open spec fn webp_options(quality: u8, lossless: bool) -> WebpEncodeOptions {
    WebpEncodeOptions {
        quality: quality,
        lossless: lossless,
        near_lossless: false,
        effort: 4,
        alpha_quality: 100,
    }
}

/// The format that options stand for.
pub open spec fn format_of(options: EncodeOptions) -> OutputFormat {
    match options {
        EncodeOptions::Jpeg(_) => OutputFormat::Jpeg,
        EncodeOptions::Webp(o) => if o.lossless {
            OutputFormat::WebpLossless
        } else {
            OutputFormat::Webp
        },
        EncodeOptions::Png(_) => OutputFormat::Png,
        EncodeOptions::Jxl(_) => OutputFormat::Jxl,
        EncodeOptions::Avif(_) => OutputFormat::Avif,
        EncodeOptions::Tiff(_) => OutputFormat::Tiff,
        EncodeOptions::Gif(_) => OutputFormat::Gif,
        EncodeOptions::Bmp => OutputFormat::Bmp,
    }
}

/// The quality that options ask for; 100 where a format knows none.
pub open spec fn quality_of(options: EncodeOptions) -> u8 {
    match options {
        EncodeOptions::Jpeg(o) => o.quality,
        EncodeOptions::Webp(o) => o.quality,
        EncodeOptions::Png(_) => 100,
        EncodeOptions::Jxl(o) => o.quality,
        EncodeOptions::Avif(o) => o.quality,
        EncodeOptions::Tiff(o) => o.quality,
        EncodeOptions::Gif(_) => 100,
        EncodeOptions::Bmp => 100,
    }
}

/// The options built for a format stand for that format.
pub proof fn lemma_options_format(format: OutputFormat, quality: u8)
    ensures
        format_of(options_for(format, quality)) == format,
{
}

/// The options built for a lossy format keep the quality asked for.
pub proof fn lemma_options_quality(format: OutputFormat, quality: u8)
    requires
        format is Jpeg || format is Webp || format is WebpLossless || format is Jxl
            || format is Avif,
    ensures
        quality_of(options_for(format, quality)) == quality,
{
}

impl EncodeOptions {
    /// Options for a format and a quality.
    pub fn with_quality(format: OutputFormat, quality: u8) -> (r: Self)
        ensures
            r == options_for(format, quality),
    {
        match format {
            OutputFormat::Jpeg => {
                let mut options: JpegEncodeOptions = JpegEncodeOptions::default();
                options.quality = quality;
                EncodeOptions::Jpeg(options)
            },
            OutputFormat::Webp | OutputFormat::WebpLossless => {
                let mut options: WebpEncodeOptions = WebpEncodeOptions::default();
                options.quality = quality;
                options.lossless = format == OutputFormat::WebpLossless;
                EncodeOptions::Webp(options)
            },
            OutputFormat::Png => EncodeOptions::Png(PngEncodeOptions::default()),
            OutputFormat::Jxl => {
                let mut options: JxlEncodeOptions = JxlEncodeOptions::default();
                options.quality = quality;
                EncodeOptions::Jxl(options)
            },
            OutputFormat::Avif => {
                let mut options: AvifEncodeOptions = AvifEncodeOptions::default();
                options.quality = quality;
                EncodeOptions::Avif(options)
            },
            OutputFormat::Tiff => EncodeOptions::Tiff(TiffEncodeOptions::default()),
            OutputFormat::Gif => EncodeOptions::Gif(GifEncodeOptions::default()),
            OutputFormat::Bmp => EncodeOptions::Bmp,
        }
    }

    /// The format that the options stand for.
    pub fn output_format(&self) -> (r: OutputFormat)
        ensures
            r == format_of(*self),
    {
        match self {
            EncodeOptions::Jpeg(_) => OutputFormat::Jpeg,
            EncodeOptions::Webp(options) => if options.lossless {
                OutputFormat::WebpLossless
            } else {
                OutputFormat::Webp
            },
            EncodeOptions::Png(_) => OutputFormat::Png,
            EncodeOptions::Jxl(_) => OutputFormat::Jxl,
            EncodeOptions::Avif(_) => OutputFormat::Avif,
            EncodeOptions::Tiff(_) => OutputFormat::Tiff,
            EncodeOptions::Gif(_) => OutputFormat::Gif,
            EncodeOptions::Bmp => OutputFormat::Bmp,
        }
    }

    /// The quality that the options ask for.
    pub fn quality(&self) -> (r: u8)
        ensures
            r == quality_of(*self),
    {
        match self {
            EncodeOptions::Jpeg(options) => options.quality,
            EncodeOptions::Webp(options) => options.quality,
            EncodeOptions::Png(_) => 100,
            EncodeOptions::Jxl(options) => options.quality,
            EncodeOptions::Avif(options) => options.quality,
            EncodeOptions::Tiff(options) => options.quality,
            EncodeOptions::Gif(_) => 100,
            EncodeOptions::Bmp => 100,
        }
    }
}

/// A rectangle in source-image coordinates.
#[derive(Debug, Clone, Copy, PartialEq, Eq, Structural)]
pub struct RequestedRegion {
    /// Left edge in pixels.
    pub left: u32,
    /// Top edge in pixels.
    pub top: u32,
    /// Width in pixels.
    pub width: u32,
    /// Height in pixels.
    pub height: u32,
}

impl RequestedRegion {
    /// A rectangle from its edges and size.
    pub fn new(left: u32, top: u32, width: u32, height: u32) -> (r: Self)
        ensures
            r == (RequestedRegion { left, top, width, height }),
    {
        RequestedRegion { left, top, width, height }
    }

    /// Left edge, top edge, width and height.
    pub fn as_tuple(self) -> (r: (u32, u32, u32, u32))
        ensures
            r == (self.left, self.top, self.width, self.height),
    {
        (self.left, self.top, self.width, self.height)
    }

    /// The rectangle as text.
    pub open spec fn text(self) -> Seq<char> {
        "left="@ + decimal(self.left as nat) + ", top="@ + decimal(self.top as nat) + ", width="@
            + decimal(self.width as nat) + ", height="@ + decimal(self.height as nat)
    }

    /// The rectangle as text.
    pub fn message(self) -> (r: String)
        ensures
            r@ == self.text(),
    {
        let mut r: String = "left=".to_owned();
        push_decimal(&mut r, self.left as usize);
        r.append(", top=");
        push_decimal(&mut r, self.top as usize);
        r.append(", width=");
        push_decimal(&mut r, self.width as usize);
        r.append(", height=");
        push_decimal(&mut r, self.height as usize);
        r
    }
}

/// Size of an image.
#[derive(Debug, Clone, Copy, PartialEq, Eq, Structural)]
pub struct ImageInfo {
    /// Width in pixels.
    pub width: u32,
    /// Height in pixels.
    pub height: u32,
}

impl ImageInfo {
    /// The rectangle is not empty and lies within the image.
    pub open spec fn holds(self, region: RequestedRegion) -> bool {
        &&& region.width > 0
        &&& region.height > 0
        &&& region.left + region.width <= self.width
        &&& region.top + region.height <= self.height
    }

    /// Whether the rectangle is not empty and lies within the image.
    pub fn contains_region(self, region: RequestedRegion) -> (r: bool)
        ensures
            r == self.holds(region),
    {
        region.width > 0 && region.height > 0 && region.left <= self.width && region.top
            <= self.height && region.width <= self.width - region.left && region.height
            <= self.height - region.top
    }

    /// The size as text.
    pub open spec fn text(self) -> Seq<char> {
        decimal(self.width as nat) + "x"@ + decimal(self.height as nat)
    }

    /// The size as text.
    pub fn message(self) -> (r: String)
        ensures
            r@ == self.text(),
    {
        let mut r: String = String::new();
        push_decimal(&mut r, self.width as usize);
        r.append("x");
        push_decimal(&mut r, self.height as usize);
        assert(r@ =~= self.text());
        r
    }
}

/// What to do with one image.
#[derive(Debug, Clone)]
pub struct ProcessRequest {
    /// Left edge of the crop in pixels.
    pub region_left: u32,
    /// Top edge of the crop in pixels.
    pub region_top: u32,
    /// Width of the crop in pixels; 0 for none.
    pub region_width: u32,
    /// Height of the crop in pixels; 0 for none.
    pub region_height: u32,
    /// Output width in pixels; 0 keeps the aspect ratio.
    pub output_width: u32,
    /// Output height in pixels; 0 keeps the aspect ratio.
    pub output_height: u32,
    /// Encoder options.
    pub encode: EncodeOptions,
    /// Page of a source with several.
    pub page: u32,
    /// Clockwise rotation in degrees.
    pub rotation: u16,
    /// Crop the largest centered square first.
    pub square_region: bool,
}

impl ProcessRequest {
    /// The crop that is asked for.
    pub open spec fn region(self) -> Option<RequestedRegion> {
        if self.region_width > 0 && self.region_height > 0 {
            Some(
                RequestedRegion {
                    left: self.region_left,
                    top: self.region_top,
                    width: self.region_width,
                    height: self.region_height,
                },
            )
        } else {
            None
        }
    }

    /// The output size that is asked for.
    pub open spec fn render_size(self) -> Option<(u32, u32)> {
        if self.output_width == 0 && self.output_height == 0 {
            None
        } else {
            Some((self.output_width, self.output_height))
        }
    }

    /// A request that only encodes.
    pub fn with_quality(output_format: OutputFormat, quality: u8) -> (r: Self)
        ensures
            r.region_left == 0 && r.region_top == 0,
            r.region_width == 0 && r.region_height == 0,
            r.output_width == 0 && r.output_height == 0,
            r.encode == options_for(output_format, quality),
            r.page == 0,
            r.rotation == 0,
            !r.square_region,
    {
        ProcessRequest {
            region_left: 0,
            region_top: 0,
            region_width: 0,
            region_height: 0,
            output_width: 0,
            output_height: 0,
            encode: EncodeOptions::with_quality(output_format, quality),
            page: 0,
            rotation: 0,
            square_region: false,
        }
    }

    /// The output format.
    pub fn output_format(&self) -> (r: OutputFormat)
        ensures
            r == format_of(self.encode),
    {
        self.encode.output_format()
    }

    /// The quality that the options ask for.
    pub fn quality(&self) -> (r: u8)
        ensures
            r == quality_of(self.encode),
    {
        self.encode.quality()
    }

    /// The encoder options.
    pub fn encode_options(&self) -> (r: &EncodeOptions)
        ensures
            *r == self.encode,
    {
        &self.encode
    }

    /// The crop that is asked for.
    pub fn requested_region(&self) -> (r: Option<RequestedRegion>)
        ensures
            r == self.region(),
    {
        if self.region_width > 0 && self.region_height > 0 {
            Some(
                RequestedRegion::new(
                    self.region_left,
                    self.region_top,
                    self.region_width,
                    self.region_height,
                ),
            )
        } else {
            None
        }
    }

    /// The output size that is asked for.
    pub fn requested_render_size(&self) -> (r: Option<(u32, u32)>)
        ensures
            r == self.render_size(),
    {
        if self.output_width == 0 && self.output_height == 0 {
            None
        } else {
            Some((self.output_width, self.output_height))
        }
    }
}

/// Errors of decoding, transforming and encoding.
#[derive(Debug)]
pub enum CrabMagickError {
    /// The source format is not supported.
    DecodeUnsupportedFormat(String),
    /// Reading the source failed.
    DecodeIo(String),
    /// The source is malformed.
    DecodeMalformed(String),
    /// Encoding failed.
    EncodeError(String),
    /// The crop lies outside the image.
    RegionOutOfBounds {
        /// The crop.
        region: RequestedRegion,
        /// The image.
        image: ImageInfo,
    },
}

/// An error with its text as a sequence of characters.
pub enum ErrorModel {
    DecodeUnsupportedFormat(Seq<char>),
    DecodeIo(Seq<char>),
    DecodeMalformed(Seq<char>),
    EncodeError(Seq<char>),
    RegionOutOfBounds(RequestedRegion, ImageInfo),
}

impl View for CrabMagickError {
    type V = ErrorModel;

    open spec fn view(&self) -> ErrorModel {
        match *self {
            CrabMagickError::DecodeUnsupportedFormat(s) => ErrorModel::DecodeUnsupportedFormat(s@),
            CrabMagickError::DecodeIo(s) => ErrorModel::DecodeIo(s@),
            CrabMagickError::DecodeMalformed(s) => ErrorModel::DecodeMalformed(s@),
            CrabMagickError::EncodeError(s) => ErrorModel::EncodeError(s@),
            CrabMagickError::RegionOutOfBounds { region, image } => ErrorModel::RegionOutOfBounds(
                region,
                image,
            ),
        }
    }
}

impl ErrorModel {
    /// The error as text.
    pub open spec fn text(self) -> Seq<char> {
        match self {
            ErrorModel::DecodeUnsupportedFormat(s) => "unsupported source format: "@ + s,
            ErrorModel::DecodeIo(s) => "failed to read source image: "@ + s,
            ErrorModel::DecodeMalformed(s) => "malformed source image: "@ + s,
            ErrorModel::EncodeError(s) => "failed to encode output image: "@ + s,
            ErrorModel::RegionOutOfBounds(region, image) => "requested region "@ + region.text()
                + " lies outside image bounds "@ + image.text(),
        }
    }
}

impl CrabMagickError {
    /// The source is malformed.
    pub fn decode_malformed(message: &str) -> (r: Self)
        ensures
            r@ == ErrorModel::DecodeMalformed(message@),
    {
        CrabMagickError::DecodeMalformed(message.to_owned())
    }

    /// The source format is not supported.
    pub fn decode_unsupported_format(message: &str) -> (r: Self)
        ensures
            r@ == ErrorModel::DecodeUnsupportedFormat(message@),
    {
        CrabMagickError::DecodeUnsupportedFormat(message.to_owned())
    }

    /// Encoding failed.
    pub fn encode_error(message: &str) -> (r: Self)
        ensures
            r@ == ErrorModel::EncodeError(message@),
    {
        CrabMagickError::EncodeError(message.to_owned())
    }

    /// The crop lies outside the image.
    pub fn region_out_of_bounds(region: RequestedRegion, image: ImageInfo) -> (r: Self)
        ensures
            r@ == ErrorModel::RegionOutOfBounds(region, image),
    {
        CrabMagickError::RegionOutOfBounds { region, image }
    }

    /// The error as text.
    pub fn message(&self) -> (r: String)
        ensures
            r@ == self@.text(),
    {
        match self {
            CrabMagickError::DecodeUnsupportedFormat(s) => {
                crate::text::joined("unsupported source format: ", s.as_str())
            },
            CrabMagickError::DecodeIo(s) => {
                crate::text::joined("failed to read source image: ", s.as_str())
            },
            CrabMagickError::DecodeMalformed(s) => {
                crate::text::joined("malformed source image: ", s.as_str())
            },
            CrabMagickError::EncodeError(s) => {
                crate::text::joined("failed to encode output image: ", s.as_str())
            },
            CrabMagickError::RegionOutOfBounds { region, image } => {
                let mut r: String = "requested region ".to_owned();
                r.append(region.message().as_str());
                r.append(" lies outside image bounds ");
                r.append(image.message().as_str());
                r
            },
        }
    }
}

/// A malformed source: what failed, and why.
pub open spec fn failed(what: Seq<char>, why: Seq<char>) -> ErrorModel {
    ErrorModel::DecodeMalformed(what + why)
}

/// A malformed source: what failed, and why.
pub fn malformed(what: &str, why: &String) -> (r: CrabMagickError)
    ensures
        r@ == failed(what@, why@),
{
    CrabMagickError::DecodeMalformed(crate::text::joined(what, why.as_str()))
}

/// A failed encoding: what failed, and why.
pub open spec fn unencoded(what: Seq<char>, why: Seq<char>) -> ErrorModel {
    ErrorModel::EncodeError(what + why)
}

/// A failed encoding: what failed, and why.
pub fn encode_failed(what: &str, why: &String) -> (r: CrabMagickError)
    ensures
        r@ == unencoded(what@, why@),
{
    CrabMagickError::EncodeError(crate::text::joined(what, why.as_str()))
}

} // verus!
