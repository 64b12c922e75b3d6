//! Chunks of the RIFF container: writing them and reading them back.
use vstd::prelude::*;

verus! {

pub const RIFF: [u8; 4] = [0x52, 0x49, 0x46, 0x46];

pub const WEBP: [u8; 4] = [0x57, 0x45, 0x42, 0x50];

pub const VP8: [u8; 4] = [0x56, 0x50, 0x38, 0x20];

pub const VP8L: [u8; 4] = [0x56, 0x50, 0x38, 0x4c];

pub const VP8X: [u8; 4] = [0x56, 0x50, 0x38, 0x58];

pub const ICCP: [u8; 4] = [0x49, 0x43, 0x43, 0x50];

pub const EXIF: [u8; 4] = [0x45, 0x58, 0x49, 0x46];

pub const XMP: [u8; 4] = [0x58, 0x4d, 0x50, 0x20];

/// The `n` low bytes of `v`, least significant byte first.
pub open spec fn le_bytes(v: int, n: nat) -> Seq<u8>
    decreases n,
{
    if n == 0 {
        Seq::empty()
    } else {
        seq![(v % 256) as u8] + le_bytes(v / 256, (n - 1) as nat)
    }
}

/// Value of bytes read least significant byte first.
pub open spec fn le_value(s: Seq<u8>) -> int
    decreases s.len(),
{
    if s.len() == 0 {
        0
    } else {
        s[0] + 256 * le_value(s.skip(1))
    }
}

/// Reading back the bytes of a number that fits into four of them.
pub proof fn lemma_le_value(v: u32)
    ensures
        le_bytes(v as int, 4).len() == 4,
        le_value(le_bytes(v as int, 4)) == v,
{
    reveal_with_fuel(le_bytes, 5);
    reveal_with_fuel(le_value, 5);
    let s = le_bytes(v as int, 4);
    assert(s.skip(1) =~= le_bytes(v as int / 256, 3));
    assert(s.skip(1).skip(1) =~= le_bytes(v as int / 256 / 256, 2));
    assert(s.skip(1).skip(1).skip(1) =~= le_bytes(v as int / 256 / 256 / 256, 1));
    assert(s.skip(1).skip(1).skip(1).skip(1) =~= Seq::<u8>::empty());
}

/// Appends the low bytes of `v`, least significant byte first.
pub fn push_le_bytes(out: &mut Vec<u8>, v: u32, n: usize)
    requires
        n <= 4,
    ensures
        final(out)@ == old(out)@ + le_bytes(v as int, n as nat),
{
    let ghost start = out@;
    let mut rest: u32 = v;
    let mut i: usize = 0;
    assert(start + le_bytes(v as int, n as nat) == out@ + le_bytes(rest as int, n as nat));
    while i < n
        invariant
            i <= n,
            start + le_bytes(v as int, n as nat) == out@ + le_bytes(rest as int, (n - i) as nat),
        decreases n - i,
    {
        let b: u8 = (rest % 256) as u8;
        let ghost prev = out@;
        out.push(b);
        assert(out@ + le_bytes(rest as int / 256, (n - i - 1) as nat) =~= prev + (seq![b]
            + le_bytes(rest as int / 256, (n - i - 1) as nat)));
        rest = rest / 256;
        i = i + 1;
    }
    assert(out@ + Seq::<u8>::empty() =~= out@);
}

/// Appends a slice.
pub fn push_slice(out: &mut Vec<u8>, data: &[u8])
    ensures
        final(out)@ == old(out)@ + data@,
{
    let ghost start = out@;
    let mut i: usize = 0;
    while i < data.len()
        invariant
            i <= data@.len(),
            out@ == start + data@.take(i as int),
        decreases data@.len() - i,
    {
        out.push(data[i]);
        i = i + 1;
        assert(out@ =~= start + data@.take(i as int));
    }
    assert(data@.take(i as int) =~= data@);
}

/// The low 32 bits.
pub open spec fn trunc32(v: int) -> u32 {
    (v % 0x1_0000_0000) as u32
}

/// Size of a chunk with its header and padding, as a 32-bit number.
pub open spec fn chunk_size_spec(inner_bytes: int) -> u32 {
    trunc32(inner_bytes + inner_bytes % 2 + 8)
}

pub fn chunk_size(inner_bytes: usize) -> (r: u32)
    ensures
        r == chunk_size_spec(inner_bytes as int),
{
    let low: u64 = inner_bytes as u64 % 0x1_0000_0000;
    ((low + low % 2 + 8) % 0x1_0000_0000) as u32
}

/// A chunk: name, length, content, and a zero byte after content of odd length.
pub open spec fn chunk_bytes(name: Seq<u8>, data: Seq<u8>) -> Seq<u8> {
    name + (le_bytes(trunc32(data.len() as int) as int, 4) + (data + if data.len() % 2 == 1 {
        seq![0u8]
    } else {
        Seq::empty()
    }))
}

pub fn write_chunk(w: &mut Vec<u8>, name: &[u8; 4], data: &[u8])
    ensures
        final(w)@ == old(w)@ + chunk_bytes(name@, data@),
{
    let ghost start = w@;
    push_slice(w, name.as_slice());
    let len: u32 = (data.len() as u64 % 0x1_0000_0000) as u32;
    push_le_bytes(w, len, 4);
    push_slice(w, data);
    if data.len() % 2 == 1 {
        w.push(0);
    }
    assert(w@ =~= start + chunk_bytes(name@, data@));
}

/// Reads one chunk: its name, its content and what follows.
pub open spec fn read_chunk(s: Seq<u8>) -> Option<(Seq<u8>, Seq<u8>, Seq<u8>)> {
    if s.len() < 8 {
        None
    } else {
        let len = le_value(s.subrange(4, 8));
        if len < 0 || s.len() < 8 + len + len % 2 {
            None
        } else {
            Some((s.take(4), s.subrange(8, 8 + len), s.skip(8 + len + len % 2)))
        }
    }
}

/// A chunk that was written is the chunk that is read.
pub proof fn lemma_read_chunk(name: Seq<u8>, data: Seq<u8>, rest: Seq<u8>)
    requires
        name.len() == 4,
        data.len() <= u32::MAX,
    ensures
        read_chunk(chunk_bytes(name, data) + rest) == Some((name, data, rest)),
{
    let s = chunk_bytes(name, data) + rest;
    let n = data.len() as int;
    let len = trunc32(n);
    assert(len == n);
    lemma_le_value(len);
    assert(s.subrange(4, 8) =~= le_bytes(len as int, 4));
    assert(s.take(4) =~= name);
    assert(s.subrange(8, 8 + n) =~= data);
    assert(s.skip(8 + n + n % 2) =~= rest);
}

/// A file: the outer chunk around the format's name and the inner chunks.
pub open spec fn riff_bytes(size: u32, inner: Seq<u8>) -> Seq<u8> {
    RIFF@ + (le_bytes(size as int, 4) + (WEBP@ + inner))
}

/// Reads the outer chunk: the inner chunks, if its length is that of what follows.
pub open spec fn read_riff(s: Seq<u8>) -> Option<Seq<u8>> {
    if s.len() >= 12 && s.take(4) == RIFF@ && s.subrange(8, 12) == WEBP@ && le_value(
        s.subrange(4, 8),
    ) == s.len() - 8 {
        Some(s.skip(12))
    } else {
        None
    }
}

pub proof fn lemma_read_riff(size: u32, inner: Seq<u8>)
    requires
        size == inner.len() + 4,
    ensures
        read_riff(riff_bytes(size, inner)) == Some(inner),
{
    let s = riff_bytes(size, inner);
    lemma_le_value(size);
    assert(RIFF@.len() == 4 && WEBP@.len() == 4);
    assert(s.take(4) =~= RIFF@);
    assert(s.subrange(4, 8) =~= le_bytes(size as int, 4));
    assert(s.subrange(8, 12) =~= WEBP@);
    assert(s.skip(12) =~= inner);
}

/// Length of a chunk with its header and padding.
pub proof fn lemma_chunk_len(name: Seq<u8>, data: Seq<u8>)
    requires
        name.len() == 4,
    ensures
        chunk_bytes(name, data).len() == 8 + data.len() + data.len() % 2,
{
    lemma_le_value(trunc32(data.len() as int));
}

/// Writes the outer chunk's header and the format's name.
pub fn write_riff_head(out: &mut Vec<u8>, size: u32)
    ensures
        forall|inner: Seq<u8>|
            #![trigger riff_bytes(size, inner)]
            final(out)@ + inner == old(out)@ + riff_bytes(size, inner),
{
    let ghost start = out@;
    push_slice(out, RIFF.as_slice());
    push_le_bytes(out, size, 4);
    push_slice(out, WEBP.as_slice());
    assert forall|inner: Seq<u8>|
        #![trigger riff_bytes(size, inner)]
        out@ + inner == start + riff_bytes(size, inner) by {
        crate::math::lemma_join_four(start, RIFF@, le_bytes(size as int, 4), WEBP@, inner);
    }
}

} // verus!
