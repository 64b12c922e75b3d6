//! JPEG 2000 input: the signature test and the decoded image.
use crate::pipeline::laws::spells;
use vstd::prelude::*;

verus! {

/// First bytes of a JP2 container.
pub const JP2_MAGIC: [u8; 8] = [0x00, 0x00, 0x00, 0x0C, 0x6A, 0x50, 0x20, 0x20];

/// First bytes of a bare codestream.
pub const CODESTREAM_MAGIC: [u8; 4] = [0xFF, 0x4F, 0xFF, 0x51];

/// A decoded JPEG 2000 image with packed 8-bit pixels.
#[derive(Debug)]
pub struct DecodedImage {
    /// Image width in pixels.
    pub width: u32,
    /// Image height in pixels.
    pub height: u32,
    /// Number of color components.
    pub components: u8,
    /// Packed pixels.
    pub pixels: Vec<u8>,
}

/// What a codestream decoder hands over.
#[derive(Debug)]
pub struct ComponentImage {
    /// Image width in pixels.
    pub width: u32,
    /// Image height in pixels.
    pub height: u32,
    /// Number of color components.
    pub components: usize,
    /// Samples of all components, packed.
    pub data: Vec<u8>,
}

/// Why decoding failed.
#[derive(Debug)]
pub enum DecodeError {
    /// The data starts with neither signature.
    InvalidSignature,
    /// The codestream decoder gave up.
    Codestream(String),
}

/// The data starts with the given bytes.
pub open spec fn starts(data: Seq<u8>, magic: Seq<u8>) -> bool {
    data.len() >= magic.len() && data.subrange(0, magic.len() as int) == magic
}

/// The data starts as a JP2 container or as a codestream does.
pub open spec fn signed(data: Seq<u8>) -> bool {
    starts(data, JP2_MAGIC@) || starts(data, CODESTREAM_MAGIC@)
}

fn starts_with(data: &[u8], magic: &[u8]) -> (r: bool)
    ensures
        r == starts(data@, magic@),
{
    if data.len() < magic.len() {
        return false;
    }
    let mut i: usize = 0;
    while i < magic.len()
        invariant
            i <= magic@.len() <= data@.len(),
            forall|k: int| 0 <= k < i ==> data@[k] == magic@[k],
        decreases magic@.len() - i,
    {
        if data[i] != magic[i] {
            assert(data@.subrange(0, magic@.len() as int)[i as int] != magic@[i as int]);
            return false;
        }
        i = i + 1;
    }
    assert(data@.subrange(0, magic@.len() as int) =~= magic@);
    true
}

/// The image that a decoder's result stands for; the component count wraps at a byte.
pub open spec fn packed(r: Result<ComponentImage, DecodeError>) -> Result<
    DecodedImage,
    DecodeError,
> {
    match r {
        Ok(image) => Ok(
            (DecodedImage {
                width: image.width,
                height: image.height,
                components: image.components as u8,
                pixels: image.data,
            }),
        ),
        Err(error) => Err(error),
    }
}

/// Decodes a JPEG 2000 image: tests the signature, then lets the codestream decoder work.
pub fn decode<F: Fn(&[u8]) -> Result<ComponentImage, DecodeError>>(
    data: &[u8],
    decoder: F,
) -> (r: Result<DecodedImage, DecodeError>)
    requires
        signed(data@) ==> call_requires(decoder, (data,)),
    ensures
        !signed(data@) ==> r == Err::<DecodedImage, DecodeError>(DecodeError::InvalidSignature),
        signed(data@) ==> exists|out: Result<ComponentImage, DecodeError>|
            #[trigger] call_ensures(decoder, (data,), out) && r == packed(out),
{
    let jp2: [u8; 8] = JP2_MAGIC;
    let codestream: [u8; 4] = CODESTREAM_MAGIC;
    if !starts_with(data, jp2.as_slice()) && !starts_with(data, codestream.as_slice()) {
        return Err(DecodeError::InvalidSignature);
    }
    let out: Result<ComponentImage, DecodeError> = decoder(data);
    let ghost shown = out;
    let r = match out {
        Ok(image) => Ok(
            DecodedImage {
                width: image.width,
                height: image.height,
                components: image.components as u8,
                pixels: image.data,
            },
        ),
        Err(error) => Err(error),
    };
    assert(call_ensures(decoder, (data,), shown) && r == packed(shown));
    r
}

/// A container is told by its first box, twelve bytes long and of the type `jP`; a codestream by its
/// two first markers.
pub proof fn lemma_signatures(d: Seq<u8>)
    ensures
        signed(d) == ((d.len() >= 4 && d[0] == 0 && d[1] == 0 && d[2] == 0 && d[3] == 12 && spells(
            d,
            4,
            "jP  "@,
        )) || (d.len() >= 4 && d[0] == 255 && d[1] == 79 && d[2] == 255 && d[3] == 81)),
{
    reveal_strlit("jP  ");
    let t = "jP  "@;
    let a = JP2_MAGIC@;
    let c = CODESTREAM_MAGIC@;
    assert(a[0] == 0 && a[1] == 0 && a[2] == 0 && a[3] == 12);
    assert(a[4] == 0x6A && a[5] == 0x50 && a[6] == 0x20 && a[7] == 0x20);
    assert(t[0] as u32 == 0x6A && t[1] as u32 == 0x50 && t[2] as u32 == 0x20 && t[3] as u32
        == 0x20);
    assert(c[0] == 255 && c[1] == 79 && c[2] == 255 && c[3] == 81);
    if d.len() >= 8 {
        let s = d.subrange(0, 8);
        assert(s[0] == d[0] && s[1] == d[1] && s[2] == d[2] && s[3] == d[3]);
        assert(s[4] == d[4] && s[5] == d[5] && s[6] == d[6] && s[7] == d[7]);
        assert((s == a) == (s =~= a));
        if spells(d, 4, t) {
            assert(d[4] as u32 == t[0] as u32 && d[5] as u32 == t[1] as u32);
            assert(d[6] as u32 == t[2] as u32 && d[7] as u32 == t[3] as u32);
        }
        if starts(d, a) {
            assert forall|i: int| 0 <= i < t.len() implies d[4 + i] as u32 == #[trigger] t[i]
                as u32 by {
                assert(s[4 + i] == a[4 + i]);
            }
        }
    }
    if d.len() >= 4 {
        let s = d.subrange(0, 4);
        assert(s[0] == d[0] && s[1] == d[1] && s[2] == d[2] && s[3] == d[3]);
        assert((s == c) == (s =~= c));
    }
}

} // verus!
