//! Blocks of a transform-coded image: their transforms, and subsampled channels.
use vstd::prelude::*;

verus! {

/// The transform of a block. `DctHxW` covers `H` rows and `W` columns of pixels.
#[derive(Debug, Clone, Copy, PartialEq, Eq, Structural)]
pub enum TransformType {
    Dct8,
    Hornuss,
    Dct2,
    Dct4,
    Dct16,
    Dct32,
    Dct16x8,
    Dct8x16,
    Dct32x8,
    Dct8x32,
    Dct32x16,
    Dct16x32,
    Dct4x8,
    Dct8x4,
    Afv0,
    Afv1,
    Afv2,
    Afv3,
    Dct64,
    Dct64x32,
    Dct32x64,
    Dct128,
    Dct128x64,
    Dct64x128,
    Dct256,
    Dct256x128,
    Dct128x256,
}

/// Width of a transform in blocks of eight pixels, as a power of two.
pub open spec fn log_width(t: TransformType) -> int {
    match t {
        TransformType::Dct16 | TransformType::Dct8x16 | TransformType::Dct32x16 => 1,
        TransformType::Dct32 | TransformType::Dct8x32 | TransformType::Dct16x32
        | TransformType::Dct64x32 => 2,
        TransformType::Dct64 | TransformType::Dct32x64 | TransformType::Dct128x64 => 3,
        TransformType::Dct128 | TransformType::Dct64x128 | TransformType::Dct256x128 => 4,
        TransformType::Dct256 | TransformType::Dct128x256 => 5,
        _ => 0,
    }
}

/// Height of a transform in blocks of eight pixels, as a power of two.
pub open spec fn log_height(t: TransformType) -> int {
    match t {
        TransformType::Dct16 | TransformType::Dct16x8 | TransformType::Dct16x32 => 1,
        TransformType::Dct32 | TransformType::Dct32x8 | TransformType::Dct32x16
        | TransformType::Dct32x64 => 2,
        TransformType::Dct64 | TransformType::Dct64x32 | TransformType::Dct64x128 => 3,
        TransformType::Dct128 | TransformType::Dct128x64 | TransformType::Dct128x256 => 4,
        TransformType::Dct256 | TransformType::Dct256x128 => 5,
        _ => 0,
    }
}

/// Two to the power of `k`, for the sizes of transforms.
pub open spec fn side_of(k: int) -> int {
    if k == 0 {
        1
    } else if k == 1 {
        2
    } else if k == 2 {
        4
    } else if k == 3 {
        8
    } else if k == 4 {
        16
    } else {
        32
    }
}

impl TransformType {
    /// Width and height in blocks of eight by eight pixels.
    pub open spec fn size(self) -> (int, int) {
        (side_of(log_width(self)), side_of(log_height(self)))
    }

    /// Number of blocks of eight by eight pixels.
    pub open spec fn blocks(self) -> int {
        self.size().0 * self.size().1
    }

    /// Width and height in blocks of eight by eight pixels.
    pub fn dct_select_size(self) -> (r: (u32, u32))
        ensures
            r.0 == self.size().0,
            r.1 == self.size().1,
            1 <= r.0 <= 32,
            1 <= r.1 <= 32,
    {
        match self {
            TransformType::Dct16 => (2, 2),
            TransformType::Dct32 => (4, 4),
            TransformType::Dct16x8 => (1, 2),
            TransformType::Dct8x16 => (2, 1),
            TransformType::Dct32x8 => (1, 4),
            TransformType::Dct8x32 => (4, 1),
            TransformType::Dct32x16 => (2, 4),
            TransformType::Dct16x32 => (4, 2),
            TransformType::Dct64 => (8, 8),
            TransformType::Dct64x32 => (4, 8),
            TransformType::Dct32x64 => (8, 4),
            TransformType::Dct128 => (16, 16),
            TransformType::Dct128x64 => (8, 16),
            TransformType::Dct64x128 => (16, 8),
            TransformType::Dct256 => (32, 32),
            TransformType::Dct256x128 => (16, 32),
            TransformType::Dct128x256 => (32, 16),
            _ => (1, 1),
        }
    }

    /// Which of the thirteen coefficient orders the transform uses.
    pub open spec fn order(self) -> int {
        match self {
            TransformType::Dct8 => 0,
            TransformType::Dct16 => 2,
            TransformType::Dct32 => 3,
            TransformType::Dct16x8 | TransformType::Dct8x16 => 4,
            TransformType::Dct32x8 | TransformType::Dct8x32 => 5,
            TransformType::Dct32x16 | TransformType::Dct16x32 => 6,
            TransformType::Dct64 => 7,
            TransformType::Dct64x32 | TransformType::Dct32x64 => 8,
            TransformType::Dct128 => 9,
            TransformType::Dct128x64 | TransformType::Dct64x128 => 10,
            TransformType::Dct256 => 11,
            TransformType::Dct256x128 | TransformType::Dct128x256 => 12,
            _ => 1,
        }
    }

    pub fn order_id(self) -> (r: u32)
        ensures
            r == self.order(),
            r < 13,
    {
        match self {
            TransformType::Dct8 => 0,
            TransformType::Dct16 => 2,
            TransformType::Dct32 => 3,
            TransformType::Dct16x8 | TransformType::Dct8x16 => 4,
            TransformType::Dct32x8 | TransformType::Dct8x32 => 5,
            TransformType::Dct32x16 | TransformType::Dct16x32 => 6,
            TransformType::Dct64 => 7,
            TransformType::Dct64x32 | TransformType::Dct32x64 => 8,
            TransformType::Dct128 => 9,
            TransformType::Dct128x64 | TransformType::Dct64x128 => 10,
            TransformType::Dct256 => 11,
            TransformType::Dct256x128 | TransformType::Dct128x256 => 12,
            _ => 1,
        }
    }

    /// Whether the coefficients of the transform are a plain cosine transform's.
    pub open spec fn is_plain_dct(self) -> bool {
        !(self == TransformType::Hornuss || self == TransformType::Dct2 || self
            == TransformType::Dct4 || self == TransformType::Dct4x8 || self
            == TransformType::Dct8x4 || self == TransformType::Afv0 || self
            == TransformType::Afv1 || self == TransformType::Afv2 || self == TransformType::Afv3)
    }

    /// Whether coordinates in the coefficient order are swapped: for plain transforms that are
    /// at least as high as wide.
    pub open spec fn transposed(self) -> bool {
        self.is_plain_dct() && self.size().1 >= self.size().0
    }

    pub fn need_transpose(self) -> (r: bool)
        ensures
            r == self.transposed(),
    {
        let (w, h) = self.dct_select_size();
        match self {
            TransformType::Hornuss
            | TransformType::Dct2
            | TransformType::Dct4
            | TransformType::Dct4x8
            | TransformType::Dct8x4
            | TransformType::Afv0
            | TransformType::Afv1
            | TransformType::Afv2
            | TransformType::Afv3 => false,
            _ => h >= w,
        }
    }

    /// The number of blocks, and its binary logarithm.
    pub fn block_count(self) -> (r: (u32, u32))
        ensures
            r.0 == self.blocks(),
            1 <= r.0 <= 1024,
            r.1 == log_width(self) + log_height(self),
            r.0 == vstd::arithmetic::power2::pow2(r.1 as nat),
            r.1 <= 10,
    {
        let (w, h) = self.dct_select_size();
        proof {
            lemma_blocks(self);
        }
        let mut log: u32 = 0;
        let mut rest: u32 = w * h;
        let ghost n = log_width(self) + log_height(self);
        proof {
            vstd::arithmetic::power2::lemma2_to64();
        }
        while rest > 1
            invariant
                log <= n <= 10,
                rest == vstd::arithmetic::power2::pow2((n - log) as nat),
            decreases rest,
        {
            proof {
                vstd::arithmetic::power2::lemma2_to64();
                if log == n {
                    assert(rest == 1);
                }
                vstd::arithmetic::power2::lemma_pow2_unfold((n - log) as nat);
            }
            rest = rest / 2;
            log = log + 1;
        }
        proof {
            if log < n {
                vstd::arithmetic::power2::lemma_pow2_unfold((n - log) as nat);
                vstd::arithmetic::power2::lemma_pow2_pos((n - log - 1) as nat);
            }
        }
        (w * h, log)
    }
}

/// The number of blocks of a transform is a power of two, at most 1024.
pub proof fn lemma_blocks(t: TransformType)
    ensures
        t.blocks() == vstd::arithmetic::power2::pow2((log_width(t) + log_height(t)) as nat),
        1 <= t.blocks() <= 1024,
        0 <= log_width(t) + log_height(t) <= 10,
{
    vstd::arithmetic::power2::lemma2_to64();
    let w = log_width(t);
    let h = log_height(t);
    vstd::arithmetic::power2::lemma_pow2_adds(w as nat, h as nat);
    assert(side_of(w) == vstd::arithmetic::power2::pow2(w as nat));
    assert(side_of(h) == vstd::arithmetic::power2::pow2(h as nat));
}

/// What a cell of the block grid holds.
#[derive(Debug, Clone, Copy)]
pub enum BlockInfo {
    Uninit,
    /// Covered by a block whose upper left cell is elsewhere.
    Occupied,
    /// The upper left cell of a block.
    Data { dct_select: TransformType, hf_mul: i32 },
}

/// How a channel is subsampled.
#[derive(Debug, Clone, Copy, PartialEq, Eq, Structural)]
pub struct ChannelShift {
    /// Some channel is subsampled horizontally.
    pub has_h_subsample: bool,
    /// This channel is.
    pub h_subsample: bool,
    /// Some channel is subsampled vertically.
    pub has_v_subsample: bool,
    /// This channel is.
    pub v_subsample: bool,
}

/// A factor of a channel means: 1, full size; 2, full width; 3, full height. Where some channel
/// has more of a dimension than another, the other is subsampled.
pub open spec fn channel_shift(upsampling: Seq<u32>, idx: int) -> ChannelShift {
    let h = exists|k: int| 0 <= k < 3 && (#[trigger] upsampling[k] == 1 || upsampling[k] == 2);
    let v = exists|k: int| 0 <= k < 3 && (#[trigger] upsampling[k] == 1 || upsampling[k] == 3);
    let own = upsampling[idx];
    ChannelShift {
        has_h_subsample: h,
        h_subsample: h && (own == 0 || own == 3),
        has_v_subsample: v,
        v_subsample: v && (own == 0 || own == 2),
    }
}

/// `n` halved, rounding down, if `shifted`.
pub open spec fn shifted(n: int, shift: bool) -> int {
    if shift {
        n / 2
    } else {
        n
    }
}

/// A length in a subsampled channel. Where another channel is subsampled, lengths are even.
pub open spec fn shifted_len(n: int, any: bool, own: bool) -> int {
    if own {
        (n + 1) / 2
    } else if any {
        (n + 1) / 2 * 2
    } else {
        n
    }
}

impl ChannelShift {
    pub fn from_jpeg_upsampling(upsampling: &[u32; 3], idx: usize) -> (r: ChannelShift)
        requires
            idx < 3,
        ensures
            r == channel_shift(upsampling@, idx as int),
    {
        let a: u32 = upsampling[0];
        let b: u32 = upsampling[1];
        let c: u32 = upsampling[2];
        let h: bool = a == 1 || a == 2 || b == 1 || b == 2 || c == 1 || c == 2;
        let v: bool = a == 1 || a == 3 || b == 1 || b == 3 || c == 1 || c == 3;
        let own: u32 = upsampling[idx];
        proof {
            let u = upsampling@;
            assert(u[0] == a && u[1] == b && u[2] == c);
        }
        ChannelShift {
            has_h_subsample: h,
            h_subsample: h && (own == 0 || own == 3),
            has_v_subsample: v,
            v_subsample: v && (own == 0 || own == 2),
        }
    }

    pub fn hshift(&self, n: usize) -> (r: usize)
        ensures
            r == shifted(n as int, self.h_subsample),
    {
        if self.h_subsample {
            n / 2
        } else {
            n
        }
    }

    pub fn vshift(&self, n: usize) -> (r: usize)
        ensures
            r == shifted(n as int, self.v_subsample),
    {
        if self.v_subsample {
            n / 2
        } else {
            n
        }
    }

    /// Size of a channel in an image of the given size.
    pub fn shift_size(&self, width: usize, height: usize) -> (r: (usize, usize))
        requires
            width < usize::MAX,
            height < usize::MAX,
        ensures
            r.0 == shifted_len(width as int, self.has_h_subsample, self.h_subsample),
            r.1 == shifted_len(height as int, self.has_v_subsample, self.v_subsample),
    {
        (
            if self.h_subsample {
                (width + 1) / 2
            } else if self.has_h_subsample {
                (width + 1) / 2 * 2
            } else {
                width
            },
            if self.v_subsample {
                (height + 1) / 2
            } else if self.has_v_subsample {
                (height + 1) / 2 * 2
            } else {
                height
            },
        )
    }
}

/// Without subsampling every channel has full size.
pub proof fn lemma_no_subsampling(upsampling: Seq<u32>, idx: int)
    requires
        upsampling.len() == 3,
        forall|k: int| 0 <= k < 3 ==> #[trigger] upsampling[k] == 0,
        0 <= idx < 3,
    ensures
        channel_shift(upsampling, idx) == (ChannelShift {
            has_h_subsample: false,
            h_subsample: false,
            has_v_subsample: false,
            v_subsample: false,
        }),
{
}

} // verus!
