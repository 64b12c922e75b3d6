//! Pixels of an image and the reversible transforms that precede entropy coding.
use crate::webp::encoder::ColorType;
use crate::webp::symbols::{
    alpha_of, blue_of, green_of, lemma_channels_pack, lemma_pack_channels, pack_argb, red_of,
};
use vstd::prelude::*;

verus! {

/// Number of input bytes of an image of `n` pixels.
pub open spec fn input_len(color: ColorType, n: int) -> int {
    match color {
        ColorType::L8 => n,
        ColorType::La8 => 2 * n,
        ColorType::Rgb8 => 3 * n,
        ColorType::Rgba8 => 4 * n,
    }
}

/// Red, green, blue and alpha of pixel `i` of the input.
pub open spec fn sample(data: Seq<u8>, color: ColorType, i: int) -> (u8, u8, u8, u8) {
    match color {
        ColorType::L8 => (data[i], data[i], data[i], 255u8),
        ColorType::La8 => (data[2 * i], data[2 * i], data[2 * i], data[2 * i + 1]),
        ColorType::Rgb8 => (data[3 * i], data[3 * i + 1], data[3 * i + 2], 255u8),
        ColorType::Rgba8 => (data[4 * i], data[4 * i + 1], data[4 * i + 2], data[4 * i + 3]),
    }
}

pub open spec fn pack_sample(s: (u8, u8, u8, u8)) -> u32 {
    pack_argb(s.0 as int, s.1 as int, s.2 as int, s.3 as int) as u32
}

/// The image as four-channel pixels.
pub open spec fn image_argb(data: Seq<u8>, color: ColorType, n: nat) -> Seq<u32> {
    Seq::new(n, |i: int| pack_sample(sample(data, color, i)))
}

/// Red and blue with green taken off.
pub open spec fn subtract_green(p: u32) -> u32 {
    pack_argb(
        (red_of(p) - green_of(p)) % 256,
        green_of(p),
        (blue_of(p) - green_of(p)) % 256,
        alpha_of(p),
    ) as u32
}

/// Red and blue with green added.
pub open spec fn add_green(p: u32) -> u32 {
    pack_argb(
        (red_of(p) + green_of(p)) % 256,
        green_of(p),
        (blue_of(p) + green_of(p)) % 256,
        alpha_of(p),
    ) as u32
}

/// Channel by channel difference.
pub open spec fn sub_pixels(p: u32, q: u32) -> u32 {
    pack_argb(
        (red_of(p) - red_of(q)) % 256,
        (green_of(p) - green_of(q)) % 256,
        (blue_of(p) - blue_of(q)) % 256,
        (alpha_of(p) - alpha_of(q)) % 256,
    ) as u32
}

/// Channel by channel sum.
pub open spec fn add_pixels(p: u32, q: u32) -> u32 {
    pack_argb(
        (red_of(p) + red_of(q)) % 256,
        (green_of(p) + green_of(q)) % 256,
        (blue_of(p) + blue_of(q)) % 256,
        (alpha_of(p) + alpha_of(q)) % 256,
    ) as u32
}

/// The pixel above; in the first row the pixel to the left; opaque black for the first.
pub open spec fn predicted(px: Seq<u32>, width: int, i: int) -> u32 {
    if i == 0 {
        0xff000000
    } else if i < width {
        px[i - 1]
    } else {
        px[i - width]
    }
}

/// Each pixel as its difference from the predicted one.
pub open spec fn residuals(px: Seq<u32>, width: int) -> Seq<u32> {
    Seq::new(px.len(), |i: int| sub_pixels(px[i], predicted(px, width, i)))
}

pub open spec fn greens_subtracted(px: Seq<u32>) -> Seq<u32> {
    Seq::new(px.len(), |i: int| subtract_green(px[i]))
}

pub open spec fn greens_added(px: Seq<u32>) -> Seq<u32> {
    Seq::new(px.len(), |i: int| add_green(px[i]))
}

/// The pixels as they are entropy coded.
pub open spec fn transformed(px: Seq<u32>, width: int, predict: bool) -> Seq<u32> {
    if predict {
        residuals(greens_subtracted(px), width)
    } else {
        greens_subtracted(px)
    }
}

/// The first `k` pixels from their differences.
pub open spec fn undo_prediction(res: Seq<u32>, width: int, k: nat) -> Seq<u32>
    decreases k,
{
    if k == 0 {
        Seq::empty()
    } else {
        let o = undo_prediction(res, width, (k - 1) as nat);
        o.push(add_pixels(res[k - 1], predicted(o, width, k - 1)))
    }
}

/// The pixels from what was entropy coded.
pub open spec fn untransformed(coded: Seq<u32>, width: int, predict: bool) -> Seq<u32> {
    if predict {
        greens_added(undo_prediction(coded, width, coded.len()))
    } else {
        greens_added(coded)
    }
}

proof fn lemma_mod_undo(a: int, b: int)
    requires
        0 <= a < 256,
        0 <= b < 256,
    ensures
        ((a - b) % 256 + b) % 256 == a,
        0 <= (a - b) % 256 < 256,
        0 <= (a + b) % 256 < 256,
{
}

/// Adding green back undoes taking it off.
pub proof fn lemma_green_undo(p: u32)
    ensures
        add_green(subtract_green(p)) == p,
{
    lemma_mod_undo(red_of(p), green_of(p));
    lemma_mod_undo(blue_of(p), green_of(p));
    lemma_channels_pack(
        ((red_of(p) - green_of(p)) % 256) as u8,
        green_of(p) as u8,
        ((blue_of(p) - green_of(p)) % 256) as u8,
        alpha_of(p) as u8,
    );
    lemma_pack_channels(p);
}

/// Adding the prediction back undoes taking it off.
pub proof fn lemma_sub_undo(p: u32, q: u32)
    ensures
        add_pixels(sub_pixels(p, q), q) == p,
{
    lemma_mod_undo(red_of(p), red_of(q));
    lemma_mod_undo(green_of(p), green_of(q));
    lemma_mod_undo(blue_of(p), blue_of(q));
    lemma_mod_undo(alpha_of(p), alpha_of(q));
    lemma_channels_pack(
        ((red_of(p) - red_of(q)) % 256) as u8,
        ((green_of(p) - green_of(q)) % 256) as u8,
        ((blue_of(p) - blue_of(q)) % 256) as u8,
        ((alpha_of(p) - alpha_of(q)) % 256) as u8,
    );
    lemma_pack_channels(p);
}

proof fn lemma_prediction_undo(px: Seq<u32>, width: int, k: nat)
    requires
        k <= px.len(),
        width >= 1,
    ensures
        undo_prediction(residuals(px, width), width, k) == px.take(k as int),
    decreases k,
{
    if k == 0 {
        assert(px.take(0) =~= Seq::<u32>::empty());
    } else {
        lemma_prediction_undo(px, width, (k - 1) as nat);
        let i = k - 1;
        let o = px.take(i);
        assert(predicted(o, width, i) == predicted(px, width, i));
        lemma_sub_undo(px[i], predicted(px, width, i));
        assert(o.push(px[i]) =~= px.take(k as int));
    }
}

/// Undoing the transforms gives the pixels back.
pub proof fn lemma_transform_undo(px: Seq<u32>, width: int, predict: bool)
    requires
        width >= 1,
    ensures
        untransformed(transformed(px, width, predict), width, predict) == px,
        transformed(px, width, predict).len() == px.len(),
{
    let g = greens_subtracted(px);
    if predict {
        lemma_prediction_undo(g, width, g.len());
        assert(g.take(g.len() as int) =~= g);
    }
    assert(greens_added(g) =~= px) by {
        assert forall|i: int| 0 <= i < px.len() implies greens_added(g)[i] == px[i] by {
            lemma_green_undo(px[i]);
        }
    }
}

/// Whether the channel is the same known value in every pixel.
pub open spec fn is_flat(px: Seq<u32>, red_blue: bool, alpha: int) -> bool {
    forall|i: int|
        0 <= i < px.len() ==> {
            &&& red_blue ==> red_of(#[trigger] px[i]) == 0 && blue_of(px[i]) == 0
            &&& alpha >= 0 ==> alpha_of(px[i]) == alpha
        }
}

/// What is known of the coded pixels from the color type alone.
pub proof fn lemma_flat_channels(
    data: Seq<u8>,
    color: ColorType,
    n: nat,
    width: int,
    predict: bool,
)
    requires
        width >= 1,
    ensures
        is_flat(
            transformed(image_argb(data, color, n), width, predict),
            color == ColorType::L8 || color == ColorType::La8,
            if color == ColorType::La8 || color == ColorType::Rgba8 {
                -1
            } else if predict {
                0
            } else {
                255
            },
        ),
{
    let px = image_argb(data, color, n);
    let g = greens_subtracted(px);
    let gray = color == ColorType::L8 || color == ColorType::La8;
    let opaque = color == ColorType::L8 || color == ColorType::Rgb8;
    assert forall|i: int| 0 <= i < n implies {
        &&& gray ==> red_of(#[trigger] g[i]) == 0 && blue_of(g[i]) == 0
        &&& opaque ==> alpha_of(g[i]) == 255
    } by {
        let s = sample(data, color, i);
        lemma_channels_pack(s.0, s.1, s.2, s.3);
        let p = px[i];
        lemma_mod_undo(red_of(p), green_of(p));
        lemma_mod_undo(blue_of(p), green_of(p));
        lemma_channels_pack(
            ((red_of(p) - green_of(p)) % 256) as u8,
            green_of(p) as u8,
            ((blue_of(p) - green_of(p)) % 256) as u8,
            alpha_of(p) as u8,
        );
    }
    if predict {
        let r = residuals(g, width);
        assert forall|i: int| 0 <= i < n implies {
            &&& gray ==> red_of(#[trigger] r[i]) == 0 && blue_of(r[i]) == 0
            &&& opaque ==> alpha_of(r[i]) == 0
        } by {
            let p = g[i];
            let q = predicted(g, width, i);
            if 0 < i < width {
                assert(q == g[i - 1]);
            } else if i >= width {
                assert(q == g[i - width]);
            }
            assert(gray ==> red_of(q) == 0 && blue_of(q) == 0);
            assert(opaque ==> alpha_of(q) == 255);
            lemma_mod_undo(red_of(p), red_of(q));
            lemma_mod_undo(green_of(p), green_of(q));
            lemma_mod_undo(blue_of(p), blue_of(q));
            lemma_mod_undo(alpha_of(p), alpha_of(q));
            lemma_channels_pack(
                ((red_of(p) - red_of(q)) % 256) as u8,
                ((green_of(p) - green_of(q)) % 256) as u8,
                ((blue_of(p) - blue_of(q)) % 256) as u8,
                ((alpha_of(p) - alpha_of(q)) % 256) as u8,
            );
        }
    }
}

/// `(a - b) mod 256` of two byte values.
fn sub_byte(a: u32, b: u32) -> (r: u32)
    requires
        a < 256,
        b < 256,
    ensures
        r == (a - b) % 256,
        r < 256,
{
    (a + 256 - b) % 256
}

fn pack_channels(r: u32, g: u32, b: u32, a: u32) -> (p: u32)
    requires
        r < 256,
        g < 256,
        b < 256,
        a < 256,
    ensures
        p == pack_argb(r as int, g as int, b as int, a as int),
{
    a * 0x1000000 + r * 0x10000 + g * 0x100 + b
}

fn subtract_green_exec(p: u32) -> (r: u32)
    ensures
        r == subtract_green(p),
{
    let red: u32 = p / 0x10000 % 256;
    let green: u32 = p / 0x100 % 256;
    let blue: u32 = p % 256;
    let alpha: u32 = p / 0x1000000 % 256;
    pack_channels(sub_byte(red, green), green, sub_byte(blue, green), alpha)
}

fn sub_pixels_exec(p: u32, q: u32) -> (r: u32)
    ensures
        r == sub_pixels(p, q),
{
    pack_channels(
        sub_byte(p / 0x10000 % 256, q / 0x10000 % 256),
        sub_byte(p / 0x100 % 256, q / 0x100 % 256),
        sub_byte(p % 256, q % 256),
        sub_byte(p / 0x1000000 % 256, q / 0x1000000 % 256),
    )
}

/// The pixels of the image as they are entropy coded.
pub fn transform_pixels(
    data: &[u8],
    width: u32,
    num_pixels: usize,
    color: ColorType,
    predict: bool,
) -> (r: Vec<u32>)
    requires
        width >= 1,
        data@.len() == input_len(color, num_pixels as int),
    ensures
        r@ == transformed(image_argb(data@, color, num_pixels as nat), width as int, predict),
{
    let ghost px = image_argb(data@, color, num_pixels as nat);
    let mut base: Vec<u32> = Vec::new();
    let mut i: usize = 0;
    let total: usize = data.len();
    while i < num_pixels
        invariant
            data@.len() == total,
            i <= num_pixels,
            data@.len() == input_len(color, num_pixels as int),
            px == image_argb(data@, color, num_pixels as nat),
            base@.len() == i,
            forall|k: int| 0 <= k < i ==> #[trigger] base@[k] == subtract_green(px[k]),
        decreases num_pixels - i,
    {
        let (r, g, b, a): (u8, u8, u8, u8) = match color {
            ColorType::L8 => (data[i], data[i], data[i], 255),
            ColorType::La8 => (data[2 * i], data[2 * i], data[2 * i], data[2 * i + 1]),
            ColorType::Rgb8 => (data[3 * i], data[3 * i + 1], data[3 * i + 2], 255),
            ColorType::Rgba8 => (data[4 * i], data[4 * i + 1], data[4 * i + 2], data[4 * i + 3]),
        };
        let p: u32 = pack_channels(r as u32, g as u32, b as u32, a as u32);
        assert(p == px[i as int]);
        base.push(subtract_green_exec(p));
        i = i + 1;
    }
    assert(base@ =~= greens_subtracted(px));
    if !predict {
        return base;
    }
    let w: usize = width as usize;
    let mut res: Vec<u32> = Vec::new();
    let mut k: usize = 0;
    while k < base.len()
        invariant
            k <= base@.len(),
            w == width,
            w >= 1,
            res@.len() == k,
            forall|j: int|
                0 <= j < k ==> #[trigger] res@[j] == sub_pixels(
                    base@[j],
                    predicted(base@, width as int, j),
                ),
        decreases base@.len() - k,
    {
        let q: u32 = if k == 0 {
            0xff000000
        } else if k < w {
            base[k - 1]
        } else {
            base[k - w]
        };
        res.push(sub_pixels_exec(base[k], q));
        k = k + 1;
    }
    assert(res@ =~= residuals(base@, width as int));
    res
}

} // verus!
