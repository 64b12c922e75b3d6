//! What the containers and the heuristics of the lossless encoder say.
use crate::pipeline::laws::spells;
use crate::webp::backref::{cache_bits_for, should_use_copy_spec};
use crate::webp::encoder::{extended_header, feature_flags, has_alpha, ColorType, Metadata};
use crate::webp::riff::{
    le_bytes, riff_bytes, EXIF, ICCP, RIFF, VP8, VP8L, VP8X, WEBP, XMP,
};
use vstd::prelude::*;

verus! {

/// Chunks are named by four letters.
pub proof fn lemma_names()
    ensures
        spells(RIFF@, 0, "RIFF"@),
        spells(WEBP@, 0, "WEBP"@),
        spells(VP8@, 0, "VP8 "@),
        spells(VP8L@, 0, "VP8L"@),
        spells(VP8X@, 0, "VP8X"@),
        spells(ICCP@, 0, "ICCP"@),
        spells(EXIF@, 0, "EXIF"@),
        spells(XMP@, 0, "XMP "@),
{
    reveal_strlit("RIFF");
    reveal_strlit("WEBP");
    reveal_strlit("VP8 ");
    reveal_strlit("VP8L");
    reveal_strlit("VP8X");
    reveal_strlit("ICCP");
    reveal_strlit("EXIF");
    reveal_strlit("XMP ");
}

/// A file begins with `RIFF`, the number of bytes that follow, and `WEBP`.
pub proof fn lemma_file_start(size: u32, inner: Seq<u8>)
    ensures
        ({
            let s = riff_bytes(size, inner);
            &&& s.len() == 12 + inner.len()
            &&& spells(s, 0, "RIFF"@)
            &&& spells(s, 8, "WEBP"@)
            &&& s[4] + 256 * s[5] + 65536 * s[6] + 16777216 * s[7] == size
            &&& s.skip(12) == inner
        }),
{
    reveal_strlit("RIFF");
    reveal_strlit("WEBP");
    reveal_with_fuel(le_bytes, 5);
    let s = riff_bytes(size, inner);
    let n = le_bytes(size as int, 4);
    assert(n.len() == 4);
    assert(s[4] == n[0] && s[5] == n[1] && s[6] == n[2] && s[7] == n[3]);
    assert(s.skip(12) =~= inner);
    let a = "RIFF"@;
    let b = "WEBP"@;
    assert forall|i: int| 0 <= i < 4 implies s[0 + i] as u32 == #[trigger] a[i] as u32 by {
        assert(s[i] == RIFF@[i]);
    }
    assert forall|i: int| 0 <= i < 4 implies s[8 + i] as u32 == #[trigger] b[i] as u32 by {
        assert(s[8 + i] == WEBP@[i]);
    }
}

/// The extended header tells each kind of metadata, and alpha, by a bit of its own, and the size of
/// the picture less one.
pub proof fn lemma_extended_fields(m: Metadata, color: ColorType, width: u32, height: u32)
    requires
        1 <= width <= 0x100_0000,
        1 <= height <= 0x100_0000,
    ensures
        ({
            let s = extended_header(m, color, width, height);
            &&& s.len() == 10
            &&& (s[0] / 4 % 2 == 1) == (m.xmp_metadata.len() > 0)
            &&& (s[0] / 8 % 2 == 1) == (m.exif_metadata.len() > 0)
            &&& (s[0] / 16 % 2 == 1) == (color is La8 || color is Rgba8)
            &&& (s[0] / 32 % 2 == 1) == (m.icc_profile.len() > 0)
            &&& s[0] % 4 == 0 && s[0] / 64 == 0
            &&& s[1] == 0 && s[2] == 0 && s[3] == 0
            &&& 1 + s[4] + 256 * s[5] + 65536 * s[6] == width
            &&& 1 + s[7] + 256 * s[8] + 65536 * s[9] == height
        }),
{
    reveal_with_fuel(le_bytes, 4);
    let s = extended_header(m, color, width, height);
    let a = le_bytes(width - 1, 3);
    let b = le_bytes(height - 1, 3);
    assert(a.len() == 3 && b.len() == 3);
    assert(s[0] == feature_flags(m, color) as u8);
    assert(s[4] == a[0] && s[5] == a[1] && s[6] == a[2]);
    assert(s[7] == b[0] && s[8] == b[1] && s[9] == b[2]);
    assert(has_alpha(color) == (color is La8 || color is Rgba8));
}

/// What makes a copy worth while: a longer one from the same place, the same one from nearer, and
/// the same one of pixels that are not cached are worth while too. Four pixels always are, one never
/// is.
pub proof fn lemma_copy_worth(len: int, dist: int, cached: bool, len2: int, dist2: int)
    requires
        should_use_copy_spec(len, dist, cached),
        len <= len2,
        dist2 <= dist,
    ensures
        should_use_copy_spec(len2, dist2, cached),
        should_use_copy_spec(len, dist, false),
        len >= 2,
{
}

/// Four pixels are always copied; three unless they are cached and come from more than 128 pixels
/// back; two only if they are not cached and come from no more than 16 pixels back.
pub proof fn lemma_copy_bounds(dist: int, cached: bool)
    ensures
        should_use_copy_spec(4, dist, cached),
        should_use_copy_spec(3, dist, cached) == !(cached && dist > 128),
        should_use_copy_spec(2, dist, cached) == !(cached || dist > 16),
{
}

/// Sixteen times as many pixels get a cache of twice the size, from 1024 times 16 pixels on and up
/// to the size of ten bits.
pub proof fn lemma_cache_grows(n: int, m: int)
    requires
        0 <= n <= m,
    ensures
        cache_bits_for(n) <= cache_bits_for(m),
        8 <= cache_bits_for(n) <= 10,
        1024 <= n < 262144 ==> cache_bits_for(16 * n) == cache_bits_for(n) + 1,
        n < 1024 ==> cache_bits_for(16 * n) == 8,
        n >= 262144 ==> cache_bits_for(n) == 10,
{
}

} // verus!
