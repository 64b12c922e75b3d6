//! Lossless encoding of images into the container format.
use crate::math::lemma_join_five;
use crate::webp::frame::{encode_frame, is_frame_of, read_frame, valid_dimensions};
use crate::webp::pixels::{image_argb, input_len};
use crate::webp::riff::{
    chunk_bytes, chunk_size, chunk_size_spec, le_bytes, lemma_chunk_len, lemma_read_chunk,
    lemma_read_riff, push_le_bytes, read_chunk, read_riff, riff_bytes, trunc32, write_chunk,
    write_riff_head, EXIF, ICCP, VP8L, VP8X, XMP,
};
use vstd::prelude::*;

verus! {

/// Color type of the image.
///
/// The format itself has no color type: all images are encoded with four channels.
/// This tells what the input data holds, which helps the compression.
#[derive(Copy, Clone, Debug, PartialEq, Eq, Structural)]
pub enum ColorType {
    /// Opaque image with a single luminance byte per pixel.
    L8,
    /// Image with a luminance and alpha byte per pixel.
    La8,
    /// Opaque image with a red, green, and blue byte per pixel.
    Rgb8,
    /// Image with a red, green, blue, and alpha byte per pixel.
    Rgba8,
}

/// Error that can occur during encoding.
#[derive(Clone, Copy, Debug, PartialEq, Eq, Structural)]
#[non_exhaustive]
pub enum EncodingError {
    /// The image dimensions are not allowed by the format.
    InvalidDimensions,
}

/// Allows fine-tuning some encoder parameters.
#[derive(Clone, Copy, Debug, PartialEq, Eq, Structural)]
pub struct EncoderParams {
    /// Use a predictor transform. Enabled by default.
    pub use_predictor_transform: bool,
}

impl Default for EncoderParams {
    fn default() -> (r: Self)
        ensures
            r.use_predictor_transform,
    {
        EncoderParams { use_predictor_transform: true }
    }
}

pub open spec fn has_alpha(color: ColorType) -> bool {
    color == ColorType::La8 || color == ColorType::Rgba8
}

/// Metadata that a file can carry. Empty metadata is absent.
pub struct Metadata {
    pub icc_profile: Seq<u8>,
    pub exif_metadata: Seq<u8>,
    pub xmp_metadata: Seq<u8>,
}

pub open spec fn has_metadata(m: Metadata) -> bool {
    m.icc_profile.len() > 0 || m.exif_metadata.len() > 0 || m.xmp_metadata.len() > 0
}

/// Which features the extended header announces.
pub open spec fn feature_flags(m: Metadata, color: ColorType) -> int {
    (if m.xmp_metadata.len() > 0 {
        4int
    } else {
        0
    }) + (if m.exif_metadata.len() > 0 {
        8int
    } else {
        0
    }) + (if has_alpha(color) {
        16int
    } else {
        0
    }) + (if m.icc_profile.len() > 0 {
        32int
    } else {
        0
    })
}

/// The extended header: features and canvas size.
pub open spec fn extended_header(m: Metadata, color: ColorType, width: u32, height: u32) -> Seq<
    u8,
> {
    seq![feature_flags(m, color) as u8, 0u8, 0u8, 0u8] + (le_bytes(width - 1, 3) + le_bytes(
        height - 1,
        3,
    ))
}

pub open spec fn optional_chunk(name: Seq<u8>, data: Seq<u8>) -> Seq<u8> {
    if data.len() > 0 {
        chunk_bytes(name, data)
    } else {
        Seq::empty()
    }
}

pub open spec fn optional_size(data: Seq<u8>) -> int {
    if data.len() > 0 {
        chunk_size_spec(data.len() as int) as int
    } else {
        0
    }
}

/// The inner chunks of a file.
pub open spec fn inner_chunks(
    frame: Seq<u8>,
    m: Metadata,
    color: ColorType,
    width: u32,
    height: u32,
) -> Seq<u8> {
    if has_metadata(m) {
        chunk_bytes(VP8X@, extended_header(m, color, width, height)) + (optional_chunk(
            ICCP@,
            m.icc_profile,
        ) + (chunk_bytes(VP8L@, frame) + (optional_chunk(EXIF@, m.exif_metadata) + optional_chunk(
            XMP@,
            m.xmp_metadata,
        ))))
    } else {
        chunk_bytes(VP8L@, frame)
    }
}

/// The length field of a file, as a 32-bit number.
pub open spec fn file_size(frame: Seq<u8>, m: Metadata) -> u32 {
    if has_metadata(m) {
        trunc32(
            22 + chunk_size_spec(frame.len() as int) + optional_size(m.icc_profile) + optional_size(
                m.exif_metadata,
            ) + optional_size(m.xmp_metadata),
        )
    } else {
        trunc32(chunk_size_spec(frame.len() as int) + 4)
    }
}

/// A whole file.
pub open spec fn file_bytes(
    frame: Seq<u8>,
    m: Metadata,
    color: ColorType,
    width: u32,
    height: u32,
) -> Seq<u8> {
    riff_bytes(file_size(frame, m), inner_chunks(frame, m, color, width, height))
}

/// Encoder for the container format. Only lossless encoding is supported.
pub struct WebPEncoder {
    pub writer: Vec<u8>,
    pub icc_profile: Vec<u8>,
    pub exif_metadata: Vec<u8>,
    pub xmp_metadata: Vec<u8>,
    pub params: EncoderParams,
}

impl WebPEncoder {
    pub open spec fn metadata(&self) -> Metadata {
        Metadata {
            icc_profile: self.icc_profile@,
            exif_metadata: self.exif_metadata@,
            xmp_metadata: self.xmp_metadata@,
        }
    }

    /// Create a new encoder that appends its output to `w`.
    pub fn new(w: Vec<u8>) -> (r: Self)
        ensures
            r.writer == w,
            !has_metadata(r.metadata()),
            r.params.use_predictor_transform,
    {
        WebPEncoder {
            writer: w,
            icc_profile: Vec::new(),
            exif_metadata: Vec::new(),
            xmp_metadata: Vec::new(),
            params: EncoderParams::default(),
        }
    }

    /// Set the ICC profile to use for the image.
    pub fn set_icc_profile(&mut self, icc_profile: Vec<u8>)
        ensures
            *final(self) == (WebPEncoder { icc_profile, ..*old(self) }),
    {
        self.icc_profile = icc_profile;
    }

    /// Set the EXIF metadata to use for the image.
    pub fn set_exif_metadata(&mut self, exif_metadata: Vec<u8>)
        ensures
            *final(self) == (WebPEncoder { exif_metadata, ..*old(self) }),
    {
        self.exif_metadata = exif_metadata;
    }

    /// Set the XMP metadata to use for the image.
    pub fn set_xmp_metadata(&mut self, xmp_metadata: Vec<u8>)
        ensures
            *final(self) == (WebPEncoder { xmp_metadata, ..*old(self) }),
    {
        self.xmp_metadata = xmp_metadata;
    }

    /// Set the `EncoderParams` to use.
    pub fn set_params(&mut self, params: EncoderParams)
        ensures
            *final(self) == (WebPEncoder { params, ..*old(self) }),
    {
        self.params = params;
    }

    /// Size of an optional chunk.
    fn optional_chunk_size(data: &Vec<u8>) -> (r: u32)
        ensures
            r == optional_size(data@),
    {
        if data.len() > 0 {
            chunk_size(data.len())
        } else {
            0
        }
    }

    /// Encode image data with the indicated color type.
    ///
    /// Hands back the writer with the file appended.
    pub fn encode(self, data: &[u8], width: u32, height: u32, color: ColorType) -> (r: Result<
        Vec<u8>,
        EncodingError,
    >)
        requires
            data@.len() == input_len(color, width * height),
        ensures
            match r {
                Ok(out) => {
                    &&& valid_dimensions(width, height)
                    &&& exists|frame: Seq<u8>|
                        {
                            &&& #[trigger] is_frame_of(
                                frame,
                                data@,
                                width,
                                height,
                                color,
                                self.params.use_predictor_transform,
                            )
                            &&& read_frame(frame) == Some(
                                (
                                    width as int,
                                    height as int,
                                    has_alpha(color),
                                    image_argb(data@, color, (width * height) as nat),
                                ),
                            )
                            &&& out@ == self.writer@ + file_bytes(
                                frame,
                                self.metadata(),
                                color,
                                width,
                                height,
                            )
                        }
                },
                Err(e) => e == EncodingError::InvalidDimensions && !valid_dimensions(
                    width,
                    height,
                ),
            },
    {
        let ghost m = self.metadata();
        let frame: Vec<u8> = match encode_frame(data, width, height, color, self.params) {
            Ok(f) => f,
            Err(e) => {
                return Err(e);
            },
        };
        let icc: Vec<u8> = self.icc_profile;
        let exif: Vec<u8> = self.exif_metadata;
        let xmp: Vec<u8> = self.xmp_metadata;
        let mut out: Vec<u8> = self.writer;
        let ghost start = out@;
        if icc.len() == 0 && exif.len() == 0 && xmp.len() == 0 {
            let size: u32 = ((chunk_size(frame.len()) as u64 + 4) % 0x1_0000_0000) as u32;
            write_riff_head(&mut out, size);
            write_chunk(&mut out, &VP8L, frame.as_slice());
            assert(file_bytes(frame@, m, color, width, height) == riff_bytes(
                size,
                chunk_bytes(VP8L@, frame@),
            ));
        } else {
            let size: u32 = Self::extended_size(&frame, &icc, &exif, &xmp);
            write_riff_head(&mut out, size);
            Self::write_extended(&mut out, &frame, &icc, &exif, &xmp, color, width, height);
            assert(file_bytes(frame@, m, color, width, height) == riff_bytes(
                size,
                inner_chunks(frame@, m, color, width, height),
            ));
        }
        assert(out@ == start + file_bytes(frame@, m, color, width, height));
        Ok(out)
    }

    /// The length field of a file with metadata.
    fn extended_size(frame: &Vec<u8>, icc: &Vec<u8>, exif: &Vec<u8>, xmp: &Vec<u8>) -> (r: u32)
        ensures
            r == trunc32(
                22 + chunk_size_spec(frame@.len() as int) + optional_size(icc@) + optional_size(
                    exif@,
                ) + optional_size(xmp@),
            ),
    {
        let a: u64 = chunk_size(frame.len()) as u64;
        let b: u64 = Self::optional_chunk_size(icc) as u64;
        let c: u64 = Self::optional_chunk_size(exif) as u64;
        let d: u64 = Self::optional_chunk_size(xmp) as u64;
        ((22 + a + b + c + d) % 0x1_0000_0000) as u32
    }

    /// Writes the chunks of a file with metadata.
    fn write_extended(
        out: &mut Vec<u8>,
        frame: &Vec<u8>,
        icc: &Vec<u8>,
        exif: &Vec<u8>,
        xmp: &Vec<u8>,
        color: ColorType,
        width: u32,
        height: u32,
    )
        requires
            width >= 1,
            height >= 1,
            icc@.len() > 0 || exif@.len() > 0 || xmp@.len() > 0,
        ensures
            ({
                let m = Metadata {
                    icc_profile: icc@,
                    exif_metadata: exif@,
                    xmp_metadata: xmp@,
                };
                final(out)@ == old(out)@ + inner_chunks(frame@, m, color, width, height)
            }),
    {
        let ghost m = Metadata { icc_profile: icc@, exif_metadata: exif@, xmp_metadata: xmp@ };
        let ghost start = out@;
        let vp8x: Vec<u8> = Self::extended_header_bytes(
            icc.len() > 0,
            exif.len() > 0,
            xmp.len() > 0,
            color,
            width,
            height,
            Ghost(m),
        );
        write_chunk(out, &VP8X, vp8x.as_slice());
        Self::write_optional_chunk(out, &ICCP, icc);
        write_chunk(out, &VP8L, frame.as_slice());
        Self::write_optional_chunk(out, &EXIF, exif);
        Self::write_optional_chunk(out, &XMP, xmp);
        proof {
            lemma_join_five(
                start,
                chunk_bytes(VP8X@, vp8x@),
                optional_chunk(ICCP@, icc@),
                chunk_bytes(VP8L@, frame@),
                optional_chunk(EXIF@, exif@),
                optional_chunk(XMP@, xmp@),
            );
        }
    }

    fn write_optional_chunk(w: &mut Vec<u8>, name: &[u8; 4], data: &Vec<u8>)
        ensures
            final(w)@ == old(w)@ + optional_chunk(name@, data@),
    {
        if data.len() > 0 {
            write_chunk(w, name, data.as_slice());
        } else {
            assert(w@ + Seq::<u8>::empty() =~= w@);
        }
    }

    fn extended_header_bytes(
        has_icc: bool,
        has_exif: bool,
        has_xmp: bool,
        color: ColorType,
        width: u32,
        height: u32,
        m: Ghost<Metadata>,
    ) -> (r: Vec<u8>)
        requires
            width >= 1,
            height >= 1,
            has_icc == (m@.icc_profile.len() > 0),
            has_exif == (m@.exif_metadata.len() > 0),
            has_xmp == (m@.xmp_metadata.len() > 0),
        ensures
            r@ == extended_header(m@, color, width, height),
    {
        let mut flags: u8 = 0;
        if has_xmp {
            flags = flags + 4;
        }
        if has_exif {
            flags = flags + 8;
        }
        if color == ColorType::La8 || color == ColorType::Rgba8 {
            flags = flags + 16;
        }
        if has_icc {
            flags = flags + 32;
        }
        let mut vp8x: Vec<u8> = Vec::new();
        vp8x.push(flags);
        vp8x.push(0);
        vp8x.push(0);
        vp8x.push(0);
        push_le_bytes(&mut vp8x, width - 1, 3);
        push_le_bytes(&mut vp8x, height - 1, 3);
        assert(vp8x@ =~= extended_header(m@, color, width, height));
        vp8x
    }
}

/// What a reader finds in a file: the frame and the metadata.
pub open spec fn read_file(s: Seq<u8>) -> Option<(Seq<u8>, Metadata)> {
    match read_riff(s) {
        None => None,
        Some(inner) => match read_chunk(inner) {
            None => None,
            Some((name, data, rest)) => if name == VP8L@ {
                Some(
                    (
                        data,
                        Metadata {
                            icc_profile: Seq::empty(),
                            exif_metadata: Seq::empty(),
                            xmp_metadata: Seq::empty(),
                        },
                    ),
                )
            } else if name == VP8X@ {
                read_extended(rest)
            } else {
                None
            },
        },
    }
}

/// Takes an optional chunk off the front.
pub open spec fn read_optional(s: Seq<u8>, wanted: Seq<u8>) -> (Seq<u8>, Seq<u8>) {
    match read_chunk(s) {
        None => (Seq::empty(), s),
        Some((name, data, rest)) => if name == wanted {
            (data, rest)
        } else {
            (Seq::empty(), s)
        },
    }
}

/// Reads the chunks behind the extended header.
pub open spec fn read_extended(s: Seq<u8>) -> Option<(Seq<u8>, Metadata)> {
    let (icc_profile, s1) = read_optional(s, ICCP@);
    match read_chunk(s1) {
        None => None,
        Some((name, frame, s2)) => if name != VP8L@ {
            None
        } else {
            let (exif_metadata, s3) = read_optional(s2, EXIF@);
            let (xmp_metadata, _) = read_optional(s3, XMP@);
            Some((frame, Metadata { icc_profile, exif_metadata, xmp_metadata }))
        },
    }
}

proof fn lemma_names_differ()
    ensures
        VP8L@.len() == 4,
        VP8X@.len() == 4,
        ICCP@.len() == 4,
        EXIF@.len() == 4,
        XMP@.len() == 4,
        VP8L@ != VP8X@,
        VP8L@ != ICCP@,
        EXIF@ != XMP@,
{
    assert(VP8L@[3] != VP8X@[3]);
    assert(VP8L@[0] != ICCP@[0]);
    assert(EXIF@[0] != XMP@[0]);
}

proof fn lemma_read_optional(name: Seq<u8>, data: Seq<u8>, rest: Seq<u8>)
    requires
        name.len() == 4,
        data.len() <= u32::MAX,
        data.len() == 0 ==> match read_chunk(rest) {
            None => true,
            Some((other, _, _)) => other != name,
        },
    ensures
        read_optional(optional_chunk(name, data) + rest, name) == (data, rest),
{
    if data.len() > 0 {
        lemma_read_chunk(name, data, rest);
    } else {
        assert(optional_chunk(name, data) + rest =~= rest);
        assert(data =~= Seq::<u8>::empty());
    }
}

/// Length of an optional chunk with its header and padding.
pub open spec fn optional_len(data: Seq<u8>) -> int {
    if data.len() > 0 {
        data.len() as int + data.len() % 2 + 8
    } else {
        0
    }
}

/// The file is not too long for its length field.
pub open spec fn fits_length_field(frame: Seq<u8>, m: Metadata) -> bool {
    22 + frame.len() + frame.len() % 2 + 8 + optional_len(m.icc_profile) + optional_len(
        m.exif_metadata,
    ) + optional_len(m.xmp_metadata) <= u32::MAX
}

proof fn lemma_small_size(n: int)
    requires
        0 <= n,
        n + n % 2 + 8 <= u32::MAX,
    ensures
        chunk_size_spec(n) == n + n % 2 + 8,
{
}

proof fn lemma_optional_size(name: Seq<u8>, data: Seq<u8>)
    requires
        name.len() == 4,
        optional_len(data) <= u32::MAX,
    ensures
        optional_size(data) == optional_len(data),
        optional_chunk(name, data).len() == optional_len(data),
{
    if data.len() > 0 {
        lemma_small_size(data.len() as int);
        lemma_chunk_len(name, data);
    }
}

proof fn lemma_extended_header_len(m: Metadata, color: ColorType, width: u32, height: u32)
    ensures
        extended_header(m, color, width, height).len() == 10,
{
    reveal_with_fuel(le_bytes, 4);
}

/// The length field of a file counts what follows it.
proof fn lemma_file_size(frame: Seq<u8>, m: Metadata, color: ColorType, width: u32, height: u32)
    requires
        fits_length_field(frame, m),
    ensures
        file_size(frame, m) == inner_chunks(frame, m, color, width, height).len() + 4,
{
    lemma_names_differ();
    lemma_small_size(frame.len() as int);
    lemma_chunk_len(VP8L@, frame);
    if has_metadata(m) {
        lemma_optional_size(ICCP@, m.icc_profile);
        lemma_optional_size(EXIF@, m.exif_metadata);
        lemma_optional_size(XMP@, m.xmp_metadata);
        lemma_extended_header_len(m, color, width, height);
        lemma_chunk_len(VP8X@, extended_header(m, color, width, height));
    }
}

/// Reading a file gives the frame and the metadata back.
pub proof fn lemma_read_file(
    frame: Seq<u8>,
    m: Metadata,
    color: ColorType,
    width: u32,
    height: u32,
)
    requires
        fits_length_field(frame, m),
    ensures
        read_file(file_bytes(frame, m, color, width, height)) == Some((frame, m)),
{
    lemma_names_differ();
    lemma_file_size(frame, m, color, width, height);
    let inner = inner_chunks(frame, m, color, width, height);
    let none = Seq::<u8>::empty();
    lemma_read_riff(file_size(frame, m), inner);
    if has_metadata(m) {
        let header = extended_header(m, color, width, height);
        lemma_extended_header_len(m, color, width, height);
        let xmp = optional_chunk(XMP@, m.xmp_metadata);
        let exif = optional_chunk(EXIF@, m.exif_metadata);
        let icc = optional_chunk(ICCP@, m.icc_profile);
        let main = chunk_bytes(VP8L@, frame);
        lemma_read_chunk(VP8X@, header, icc + (main + (exif + xmp)));
        lemma_read_extended(frame, m);
    } else {
        assert(m.icc_profile =~= none);
        assert(m.exif_metadata =~= none);
        assert(m.xmp_metadata =~= none);
        assert(inner + none =~= inner);
        lemma_read_chunk(VP8L@, frame, none);
    }
}

proof fn lemma_read_extended(frame: Seq<u8>, m: Metadata)
    requires
        fits_length_field(frame, m),
    ensures
        read_extended(
            optional_chunk(ICCP@, m.icc_profile) + (chunk_bytes(VP8L@, frame) + (optional_chunk(
                EXIF@,
                m.exif_metadata,
            ) + optional_chunk(XMP@, m.xmp_metadata))),
        ) == Some((frame, m)),
{
    lemma_names_differ();
    let none = Seq::<u8>::empty();
    let xmp = optional_chunk(XMP@, m.xmp_metadata);
    let exif = optional_chunk(EXIF@, m.exif_metadata);
    let main = chunk_bytes(VP8L@, frame);
    assert(xmp + none =~= xmp);
    lemma_read_chunk(VP8L@, frame, exif + xmp);
    lemma_read_optional(ICCP@, m.icc_profile, main + (exif + xmp));
    if m.xmp_metadata.len() > 0 {
        lemma_read_chunk(XMP@, m.xmp_metadata, none);
    }
    lemma_read_optional(EXIF@, m.exif_metadata, xmp);
    lemma_read_optional(XMP@, m.xmp_metadata, none);
}

} // verus!
