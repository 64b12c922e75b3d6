//! Packed RGB images: cropping and rotating.
use crate::parallel::{chunk_done, chunk_of, parallel_chunks_mut};
use crate::request::{CrabMagickError, ErrorModel, ImageInfo, RequestedRegion};
use vstd::prelude::*;

verus! {

/// A packed RGB image.
#[derive(Debug, Clone)]
pub struct DecodedImage {
    /// Pixel bytes, `RGBRGB...`.
    pub pixels: Vec<u8>,
    /// Width in pixels.
    pub width: u32,
    /// Height in pixels.
    pub height: u32,
}

/// A packed RGB image with its bytes as a sequence.
pub struct ImageModel {
    pub pixels: Seq<u8>,
    pub width: u32,
    pub height: u32,
}

impl View for DecodedImage {
    type V = ImageModel;

    open spec fn view(&self) -> ImageModel {
        ImageModel { pixels: self.pixels@, width: self.width, height: self.height }
    }
}

impl ImageModel {
    /// The bytes are those of all pixels, and no more.
    pub open spec fn wf(self) -> bool {
        self.pixels.len() == 3 * (self.width * self.height)
    }

    /// The size.
    pub open spec fn info(self) -> ImageInfo {
        ImageInfo { width: self.width, height: self.height }
    }

    /// Byte `k` of the pixel in row `y` and column `x`.
    pub open spec fn at(self, y: int, x: int, k: int) -> u8 {
        self.pixels[3 * (y * self.width + x) + k]
    }
}

/// Results by their models.
pub open spec fn image_result(r: Result<DecodedImage, CrabMagickError>) -> Result<
    ImageModel,
    ErrorModel,
> {
    match r {
        Ok(image) => Ok(image@),
        Err(error) => Err(error@),
    }
}

/// A byte of a packed image, by row, column and channel.
pub open spec fn packed(width: int, height: int, f: spec_fn(int, int, int) -> u8) -> Seq<u8> {
    Seq::new(
        (3 * (width * height)) as nat,
        |i: int| f(i / (3 * width), i % (3 * width) / 3, i % 3),
    )
}

/// Where the byte of a row, column and channel lies.
pub proof fn lemma_packed_at(width: int, height: int, y: int, x: int, k: int)
    requires
        0 <= y < height,
        0 <= x < width,
        0 <= k < 3,
    ensures
        ({
            let i = 3 * (y * width + x) + k;
            &&& 0 <= i < 3 * (width * height)
            &&& i / (3 * width) == y
            &&& i % (3 * width) / 3 == x
            &&& i % 3 == k
            &&& i == y * (3 * width) + (3 * x + k)
        }),
{
    let i = 3 * (y * width + x) + k;
    let w3 = 3 * width;
    let rest = 3 * x + k;
    assert(i == y * w3 + rest) by (nonlinear_arith)
        requires
            i == 3 * (y * width + x) + k,
            w3 == 3 * width,
            rest == 3 * x + k,
    ;
    assert(i < 3 * (width * height)) by (nonlinear_arith)
        requires
            i == y * w3 + rest,
            w3 == 3 * width,
            0 <= rest < w3,
            y + 1 <= height,
            width > 0,
            0 <= y,
    ;
    assert(0 <= y * w3) by (nonlinear_arith)
        requires
            0 <= y,
            0 <= w3,
    ;
    crate::vp8::planes::lemma_row_col(y, rest, w3);
}

/// The row, column and channel that a byte belongs to.
pub proof fn lemma_packed_parts(width: int, height: int, i: int)
    requires
        0 <= i < 3 * (width * height),
        0 <= width,
        0 <= height,
    ensures
        ({
            let y = i / (3 * width);
            let x = i % (3 * width) / 3;
            &&& width > 0
            &&& 0 <= y < height
            &&& 0 <= x < width
            &&& i == 3 * (y * width + x) + i % 3
            &&& i % (3 * width) % 3 == i % 3
        }),
{
    assert(width != 0) by (nonlinear_arith)
        requires
            0 < 3 * (width * height),
            0 <= width,
            0 <= height,
    ;
    let w3 = 3 * width;
    let y = i / w3;
    let rest = i % w3;
    vstd::arithmetic::div_mod::lemma_fundamental_div_mod(i, w3);
    assert(0 <= rest < w3) by (nonlinear_arith)
        requires
            rest == i % w3,
            w3 > 0,
    ;
    assert(0 <= y < height) by (nonlinear_arith)
        requires
            i == w3 * y + rest,
            0 <= rest < w3,
            w3 == 3 * width,
            0 <= i < 3 * (width * height),
            width > 0,
    ;
    let m = width * y;
    assert(w3 * y == 3 * m) by (nonlinear_arith)
        requires
            w3 == 3 * width,
            m == width * y,
    ;
    assert(y * width == m) by (nonlinear_arith)
        requires
            m == width * y,
    ;
    assert(i % 3 == rest % 3);
}

// ---- cropping ----
/// The part of an image that a region covers.
pub open spec fn cropped(m: ImageModel, region: RequestedRegion) -> ImageModel {
    ImageModel {
        pixels: packed(
            region.width as int,
            region.height as int,
            |y: int, x: int, k: int| m.at(region.top + y, region.left + x, k),
        ),
        width: region.width,
        height: region.height,
    }
}

/// The region is the whole image.
pub open spec fn is_whole(m: ImageModel, region: RequestedRegion) -> bool {
    region.left == 0 && region.top == 0 && region.width == m.width && region.height == m.height
}

/// Cropping can read every byte, and the result's size can be told.
pub open spec fn croppable(m: ImageModel, region: RequestedRegion) -> bool {
    is_whole(m, region) || ({
        &&& 3 * (region.width * region.height) <= u32::MAX
        &&& region.height > 0 ==> (region.top + region.height - 1) * (3 * m.width) + 3
            * region.left + 3 * region.width <= m.pixels.len()
    })
}

/// An image cut to a region; the whole image stays as it is.
pub open spec fn region_applied(m: ImageModel, region: RequestedRegion) -> ImageModel {
    if is_whole(m, region) {
        m
    } else {
        cropped(m, region)
    }
}

/// Cutting a sound image to its whole area changes nothing.
pub proof fn lemma_crop_whole(m: ImageModel, region: RequestedRegion)
    requires
        m.wf(),
        is_whole(m, region),
    ensures
        cropped(m, region) == m,
{
    let w = m.width as int;
    let h = m.height as int;
    assert(cropped(m, region).pixels =~= m.pixels) by {
        assert forall|i: int| 0 <= i < m.pixels.len() implies cropped(m, region).pixels[i]
            == m.pixels[i] by {
            lemma_packed_parts(w, h, i);
        }
    }
}

/// A sound image can be cut to every region within it whose size can be told.
pub proof fn lemma_croppable(m: ImageModel, region: RequestedRegion)
    requires
        m.wf(),
        m.info().holds(region),
        3 * (region.width * region.height) <= u32::MAX,
    ensures
        croppable(m, region),
        region_applied(m, region).wf(),
{
    let w = m.width as int;
    let y = region.top + region.height - 1;
    assert(y * (3 * w) + 3 * w <= 3 * (w * m.height)) by (nonlinear_arith)
        requires
            y + 1 <= m.height,
            w >= 0,
    ;
}

/// Cutting twice is cutting once, to the inner region's place in the image.
pub proof fn lemma_crop_twice(m: ImageModel, outer: RequestedRegion, inner: RequestedRegion)
    requires
        cropped(m, outer).info().holds(inner),
        outer.left + inner.left <= u32::MAX,
        outer.top + inner.top <= u32::MAX,
    ensures
        cropped(cropped(m, outer), inner) == cropped(
            m,
            RequestedRegion {
                left: (outer.left + inner.left) as u32,
                top: (outer.top + inner.top) as u32,
                width: inner.width,
                height: inner.height,
            },
        ),
{
    let mid = cropped(m, outer);
    let a = cropped(mid, inner);
    let b = cropped(
        m,
        RequestedRegion {
            left: (outer.left + inner.left) as u32,
            top: (outer.top + inner.top) as u32,
            width: inner.width,
            height: inner.height,
        },
    );
    let w = inner.width as int;
    let h = inner.height as int;
    assert forall|i: int| 0 <= i < a.pixels.len() implies a.pixels[i] == b.pixels[i] by {
        lemma_packed_parts(w, h, i);
        let y = i / (3 * w);
        let x = i % (3 * w) / 3;
        lemma_packed_at(
            outer.width as int,
            outer.height as int,
            inner.top + y,
            inner.left + x,
            i % 3,
        );
    }
    assert(a.pixels =~= b.pixels);
}

/// Cuts an image to a region.
pub fn apply_region(image: DecodedImage, region: RequestedRegion) -> (r: DecodedImage)
    requires
        croppable(image@, region),
    ensures
        r@ == region_applied(image@, region),
{
    if region.left == 0 && region.top == 0 && region.width == image.width && region.height
        == image.height {
        return image;
    }
    let ghost m = image@;
    let ghost goal = cropped(m, region).pixels;
    let ghost w = region.width as int;
    let ghost h = region.height as int;
    let total: usize = image.pixels.len();
    let mut pixels: Vec<u8> = Vec::new();
    let mut y: u32 = 0;
    assert(0 * (3 * w) == 0);
    while y < region.height
        invariant
            y <= region.height,
            croppable(m, region),
            !is_whole(m, region),
            m == image@,
            m.pixels.len() == total,
            w == region.width,
            h == region.height,
            goal == cropped(m, region).pixels,
            pixels@.len() == y * (3 * w),
            forall|i: int| 0 <= i < pixels@.len() ==> #[trigger] pixels@[i] == goal[i],
        decreases region.height - y,
    {
        proof {
            assert((region.top + y) * (3 * m.width) + 3 * region.left + 3 * region.width
                <= m.pixels.len()) by (nonlinear_arith)
                requires
                    (region.top + region.height - 1) * (3 * m.width) + 3 * region.left + 3
                        * region.width <= m.pixels.len(),
                    y <= region.height - 1,
                    m.width >= 0,
            ;
            assert(0 <= (region.top + y) * (3 * m.width)) by (nonlinear_arith);
            assert((y + 1) * (3 * w) == y * (3 * w) + 3 * w) by (nonlinear_arith);
            assert(m.width >= 1 ==> (region.top + y) <= (region.top + y) * (3 * m.width))
                by (nonlinear_arith);
            assert(3 * (w * h) >= (y + 1) * (3 * w)) by (nonlinear_arith)
                requires
                    y + 1 <= h,
                    w >= 0,
            ;
        }
        if image.width == 0 {
            copy_bytes(&image.pixels, 3 * region.left as u64, 3 * region.width as u64, &mut pixels);
        } else {
            let row: u64 = region.top as u64 + y as u64;
            let start: u64 = row * (3 * image.width as u64) + 3 * region.left as u64;
            copy_bytes(&image.pixels, start, 3 * region.width as u64, &mut pixels);
        }
        proof {
            let start = (region.top + y) * (3 * m.width) + 3 * region.left;
            assert(m.width == 0 ==> (region.top + y) * (3 * m.width) == 0) by (nonlinear_arith);
            assert forall|i: int| 0 <= i < pixels@.len() implies #[trigger] pixels@[i]
                == goal[i] by {
                if i >= y * (3 * w) {
                    let j = i - y * (3 * w);
                    let x = j / 3;
                    let k = j % 3;
                    assert(i == 3 * (y * w + x) + k) by (nonlinear_arith)
                        requires
                            i == y * (3 * w) + (3 * x + k),
                    ;
                    lemma_packed_at(w, h, y as int, x, k);
                    assert(pixels@[i] == m.pixels[start + j]);
                    assert(start + j == 3 * ((region.top + y) * m.width + (region.left + x)) + k)
                        by (nonlinear_arith)
                        requires
                            start == (region.top + y) * (3 * m.width) + 3 * region.left,
                            j == 3 * x + k,
                    ;
                }
            }
        }
        y = y + 1;
    }
    assert(h * (3 * w) == 3 * (w * h)) by (nonlinear_arith);
    assert(pixels@ =~= goal);
    DecodedImage { pixels, width: region.width, height: region.height }
}

/// Appends `n` bytes from an offset.
fn copy_bytes(from: &Vec<u8>, start: u64, n: u64, to: &mut Vec<u8>)
    requires
        start + n <= from@.len(),
    ensures
        final(to)@ == old(to)@ + from@.subrange(start as int, start + n),
{
    let ghost before = to@;
    let total: usize = from.len();
    let first: usize = start as usize;
    let end: usize = (start + n) as usize;
    let mut i: usize = first;
    while i < end
        invariant
            first <= i <= end,
            end <= from@.len(),
            to@ == before + from@.subrange(first as int, i as int),
        decreases end - i,
    {
        to.push(from[i]);
        assert(from@.subrange(first as int, i + 1) =~= from@.subrange(first as int, i as int).push(
            from@[i as int],
        ));
        i = i + 1;
        assert(to@ =~= before + from@.subrange(first as int, i as int));
    }
}

/// The largest centered square.
pub open spec fn square_region(width: u32, height: u32) -> RequestedRegion {
    let side = if width < height {
        width
    } else {
        height
    };
    RequestedRegion {
        left: ((width - side) / 2) as u32,
        top: ((height - side) / 2) as u32,
        width: side,
        height: side,
    }
}

/// The largest centered square.
pub fn centered_square(width: u32, height: u32) -> (r: RequestedRegion)
    ensures
        r == square_region(width, height),
{
    let side: u32 = if width < height {
        width
    } else {
        height
    };
    RequestedRegion::new((width - side) / 2, (height - side) / 2, side, side)
}

/// The centered square lies within the image, as far from one edge as from the other but for one
/// pixel.
pub proof fn lemma_square(width: u32, height: u32)
    requires
        width > 0,
        height > 0,
    ensures
        (ImageInfo { width, height }).holds(square_region(width, height)),
        ({
            let s = square_region(width, height);
            &&& 0 <= (width - s.width - s.left) - s.left <= 1
            &&& 0 <= (height - s.height - s.top) - s.top <= 1
            &&& s.width == width || s.height == height
        }),
{
}

/// Cuts an image to its largest centered square.
pub fn square_crop(image: DecodedImage) -> (r: DecodedImage)
    requires
        croppable(image@, square_region(image.width, image.height)),
    ensures
        r@ == region_applied(image@, square_region(image.width, image.height)),
{
    let region: RequestedRegion = centered_square(image.width, image.height);
    apply_region(image, region)
}

/// Why a region cannot be had of an image, if it cannot.
pub open spec fn region_error(region: RequestedRegion, image: ImageInfo) -> Option<ErrorModel> {
    if region.width == 0 || region.height == 0 {
        Some(
            ErrorModel::DecodeMalformed(
                "requested region width and height must both be greater than zero"@,
            ),
        )
    } else if image.holds(region) {
        None
    } else {
        Some(ErrorModel::RegionOutOfBounds(region, image))
    }
}

/// Tests whether a region can be had of an image.
pub fn validate_requested_region(region: RequestedRegion, image: ImageInfo) -> (r: Result<
    (),
    CrabMagickError,
>)
    ensures
        r is Ok <==> region_error(region, image) is None,
        r is Err ==> region_error(region, image) == Some(r->Err_0@),
{
    if region.width == 0 || region.height == 0 {
        return Err(
            CrabMagickError::decode_malformed(
                "requested region width and height must both be greater than zero",
            ),
        );
    }
    if image.contains_region(region) {
        Ok(())
    } else {
        Err(CrabMagickError::region_out_of_bounds(region, image))
    }
}

/// A region from its edges and size.
pub open spec fn region_of(t: (u32, u32, u32, u32)) -> RequestedRegion {
    RequestedRegion { left: t.0, top: t.1, width: t.2, height: t.3 }
}

/// What becomes of a decoded image: the region asked for, else its centered square if that is
/// asked for, else the image itself.
pub open spec fn post_decoded(
    m: ImageModel,
    region: Option<(u32, u32, u32, u32)>,
    square: bool,
) -> Result<ImageModel, ErrorModel> {
    match region {
        Some(t) => match region_error(region_of(t), m.info()) {
            Some(error) => Err(error),
            None => Ok(region_applied(m, region_of(t))),
        },
        None => if square {
            Ok(region_applied(m, square_region(m.width, m.height)))
        } else {
            Ok(m)
        },
    }
}

/// The crop that a decoded image gets, if any, can be made.
pub open spec fn post_decodable(
    m: ImageModel,
    region: Option<(u32, u32, u32, u32)>,
    square: bool,
) -> bool {
    match region {
        Some(t) => region_error(region_of(t), m.info()) is None ==> croppable(m, region_of(t)),
        None => square ==> croppable(m, square_region(m.width, m.height)),
    }
}

/// Cuts a decoded image as asked for.
pub fn apply_post_decode_ops(
    image: DecodedImage,
    region: Option<(u32, u32, u32, u32)>,
    square: bool,
) -> (r: Result<DecodedImage, CrabMagickError>)
    requires
        post_decodable(image@, region, square),
    ensures
        image_result(r) == post_decoded(image@, region, square),
{
    match region {
        Some((x, y, w, h)) => {
            let requested: RequestedRegion = RequestedRegion::new(x, y, w, h);
            let info: ImageInfo = ImageInfo { width: image.width, height: image.height };
            match validate_requested_region(requested, info) {
                Ok(_) => Ok(apply_region(image, requested)),
                Err(error) => Err(error),
            }
        },
        None => {
            if square {
                Ok(square_crop(image))
            } else {
                Ok(image)
            }
        },
    }
}

/// Whether the bytes of a region can be read and its size be told.
pub fn can_crop(image: &DecodedImage, region: RequestedRegion) -> (r: bool)
    ensures
        r == croppable(image@, region),
{
    if region.left == 0 && region.top == 0 && region.width == image.width && region.height
        == image.height {
        return true;
    }
    assert(region.width * region.height <= 0xFFFF_FFFF * 0xFFFF_FFFF) by (nonlinear_arith)
        requires
            region.width <= 0xFFFF_FFFF,
            region.height <= 0xFFFF_FFFF,
    ;
    assert(0 <= region.width * region.height) by (nonlinear_arith);
    let area: u64 = region.width as u64 * region.height as u64;
    if area > 0x5555_5555 {
        return false;
    }
    if region.height == 0 {
        return true;
    }
    let rows: u128 = region.top as u128 + region.height as u128 - 1;
    assert(rows * (3 * image.width as u128) <= 0x2_0000_0000 * (3 * 0xFFFF_FFFF))
        by (nonlinear_arith)
        requires
            rows <= 0x2_0000_0000,
            image.width <= 0xFFFF_FFFF,
    ;
    let end: u128 = rows * (3 * image.width as u128) + 3 * region.left as u128 + 3
        * region.width as u128;
    end <= image.pixels.len() as u128
}

/// Whether the crop that a decoded image gets, if any, can be made.
pub fn can_apply_post_decode_ops(
    image: &DecodedImage,
    region: Option<(u32, u32, u32, u32)>,
    square: bool,
) -> (r: bool)
    ensures
        r == post_decodable(image@, region, square),
{
    match region {
        Some((x, y, w, h)) => {
            let requested: RequestedRegion = RequestedRegion::new(x, y, w, h);
            let info: ImageInfo = ImageInfo { width: image.width, height: image.height };
            match validate_requested_region(requested, info) {
                Ok(_) => can_crop(image, requested),
                Err(_) => true,
            }
        },
        None => {
            if square {
                can_crop(image, centered_square(image.width, image.height))
            } else {
                true
            }
        },
    }
}

// ---- rotating ----
/// A rotation that moves pixels.
#[derive(Debug, Clone, Copy, PartialEq, Eq, Structural)]
pub enum Turn {
    /// By 90 degrees, clockwise.
    Right,
    /// By 180 degrees.
    Half,
    /// By 270 degrees, clockwise.
    Left,
}

/// The rotation for an angle; none for angles that are no multiple of 90 degrees.
pub open spec fn turn_of(degrees: int) -> Option<Turn> {
    if degrees % 360 == 90 {
        Some(Turn::Right)
    } else if degrees % 360 == 180 {
        Some(Turn::Half)
    } else if degrees % 360 == 270 {
        Some(Turn::Left)
    } else {
        None
    }
}

/// Size of a turned image.
pub open spec fn turned_size(t: Turn, width: u32, height: u32) -> (u32, u32) {
    if t is Half {
        (width, height)
    } else {
        (height, width)
    }
}

/// Row and column of the source pixel that comes to lie in row `y` and column `x`.
pub open spec fn turned_from(t: Turn, width: int, height: int, y: int, x: int) -> (int, int) {
    match t {
        Turn::Right => (height - 1 - x, y),
        Turn::Half => (height - 1 - y, width - 1 - x),
        Turn::Left => (x, width - 1 - y),
    }
}

/// A turned image.
pub open spec fn turned(m: ImageModel, t: Turn) -> ImageModel {
    let size = turned_size(t, m.width, m.height);
    ImageModel {
        pixels: packed(
            size.0 as int,
            size.1 as int,
            |y: int, x: int, k: int|
                {
                    let from = turned_from(t, m.width as int, m.height as int, y, x);
                    m.at(from.0, from.1, k)
                },
        ),
        width: size.0,
        height: size.1,
    }
}

/// An image rotated clockwise; unchanged for angles that are no multiple of 90 degrees.
pub open spec fn rotated(m: ImageModel, degrees: int) -> ImageModel {
    match turn_of(degrees) {
        Some(t) => turned(m, t),
        None => m,
    }
}

/// The pixel that comes to lie in row `y` and column `x` of a turned image.
pub proof fn lemma_turned_at(m: ImageModel, t: Turn, y: int, x: int, k: int)
    requires
        0 <= y < turned(m, t).height,
        0 <= x < turned(m, t).width,
        0 <= k < 3,
    ensures
        ({
            let from = turned_from(t, m.width as int, m.height as int, y, x);
            &&& 0 <= from.0 < m.height
            &&& 0 <= from.1 < m.width
            &&& turned(m, t).at(y, x, k) == m.at(from.0, from.1, k)
        }),
{
    let size = turned_size(t, m.width, m.height);
    lemma_packed_at(size.0 as int, size.1 as int, y, x, k);
}

/// Two sound images with the same pixels are the same.
pub proof fn lemma_same_image(a: ImageModel, b: ImageModel)
    requires
        a.wf(),
        b.wf(),
        a.width == b.width,
        a.height == b.height,
        forall|y: int, x: int, k: int|
            0 <= y < a.height && 0 <= x < a.width && 0 <= k < 3 ==> #[trigger] a.at(y, x, k)
                == b.at(y, x, k),
    ensures
        a == b,
{
    let w = a.width as int;
    let h = a.height as int;
    assert forall|i: int| 0 <= i < a.pixels.len() implies a.pixels[i] == b.pixels[i] by {
        lemma_packed_parts(w, h, i);
        let y = i / (3 * w);
        let x = i % (3 * w) / 3;
        assert(a.at(y, x, i % 3) == b.at(y, x, i % 3));
    }
    assert(a.pixels =~= b.pixels);
}

/// A turned image is sound, whatever was turned.
pub proof fn lemma_turned_wf(m: ImageModel, t: Turn)
    ensures
        turned(m, t).wf(),
{
    let size = turned_size(t, m.width, m.height);
    assert(0 <= size.0 * size.1) by (nonlinear_arith);
}

/// How many quarter turns a rotation is.
pub open spec fn quarters(t: Turn) -> int {
    match t {
        Turn::Right => 1,
        Turn::Half => 2,
        Turn::Left => 3,
    }
}

/// The rotation by a number of quarter turns, if it moves pixels.
pub open spec fn turn_by(q: int) -> Option<Turn> {
    if q % 4 == 1 {
        Some(Turn::Right)
    } else if q % 4 == 2 {
        Some(Turn::Half)
    } else if q % 4 == 3 {
        Some(Turn::Left)
    } else {
        None
    }
}

/// Two turns one after the other are one turn by the sum of their quarters.
proof fn lemma_turn_pair(m: ImageModel, s: Turn, t: Turn)
    requires
        m.wf(),
    ensures
        turned(turned(m, s), t) == (match turn_by(quarters(s) + quarters(t)) {
            Some(u) => turned(m, u),
            None => m,
        }),
{
    let first = turned(m, s);
    let both = turned(first, t);
    let sum = turn_by(quarters(s) + quarters(t));
    let once = match sum {
        Some(u) => turned(m, u),
        None => m,
    };
    lemma_turned_wf(m, s);
    lemma_turned_wf(first, t);
    if sum is Some {
        lemma_turned_wf(m, sum->Some_0);
    }
    assert forall|y: int, x: int, k: int|
        0 <= y < both.height && 0 <= x < both.width && 0 <= k < 3 implies #[trigger] both.at(
        y,
        x,
        k,
    ) == once.at(y, x, k) by {
        lemma_turned_at(first, t, y, x, k);
        let from = turned_from(t, first.width as int, first.height as int, y, x);
        lemma_turned_at(m, s, from.0, from.1, k);
        if sum is Some {
            lemma_turned_at(m, sum->Some_0, y, x, k);
        }
    }
    lemma_same_image(both, once);
}

/// The rotation for an angle goes by its quarter turns.
proof fn lemma_turn_of(a: int)
    requires
        a % 90 == 0,
    ensures
        turn_of(a) == turn_by(a / 90),
{
    let q = a / 90;
    let k = q / 4;
    let r = q % 4;
    assert(a == 360 * k + 90 * r);
    assert(a % 360 == 90 * r);
}

/// The rotation for a sum of angles.
proof fn lemma_turn_sum(a: int, b: int)
    requires
        a % 90 == 0,
        b % 90 == 0,
    ensures
        turn_of(a) is None ==> turn_of(a + b) == turn_of(b),
        turn_of(b) is None ==> turn_of(a + b) == turn_of(a),
        turn_of(a) is Some && turn_of(b) is Some ==> turn_of(a + b) == turn_by(
            quarters(turn_of(a)->Some_0) + quarters(turn_of(b)->Some_0),
        ),
{
    let qa = a / 90;
    let qb = b / 90;
    lemma_turn_of(a);
    lemma_turn_of(b);
    assert(a + b == 90 * (qa + qb));
    assert((a + b) % 90 == 0 && (a + b) / 90 == qa + qb);
    lemma_turn_of(a + b);
    let ra = qa % 4;
    let rb = qb % 4;
    assert((qa + qb) % 4 == (ra + rb) % 4);
}

/// Two rotations one after the other are one rotation by the sum of the angles.
pub proof fn lemma_rotate_twice(m: ImageModel, a: int, b: int)
    requires
        m.wf(),
        a % 90 == 0,
        b % 90 == 0,
    ensures
        rotated(rotated(m, a), b) == rotated(m, a + b),
{
    lemma_turn_sum(a, b);
    if turn_of(a) is Some && turn_of(b) is Some {
        lemma_turn_pair(m, turn_of(a)->Some_0, turn_of(b)->Some_0);
    }
}

/// A rotation by a quarter is undone by a rotation by three quarters, and so on: whatever adds up
/// to full turns changes nothing.
pub proof fn lemma_rotate_back(m: ImageModel, a: int, b: int)
    requires
        m.wf(),
        a % 90 == 0,
        b % 90 == 0,
        (a + b) % 360 == 0,
    ensures
        rotated(rotated(m, a), b) == m,
{
    lemma_rotate_twice(m, a, b);
}

/// One row of a turned image.
fn turned_row(src: &Vec<u8>, width: u32, height: u32, turn: Turn, y: usize) -> (r: Vec<u8>)
    requires
        src@.len() == 3 * (width * height),
        y < turned_size(turn, width, height).1,
    ensures
        ({
            let m = ImageModel { pixels: src@, width, height };
            let w = turned_size(turn, width, height).0 as int;
            &&& r@.len() == 3 * w
            &&& forall|x: int, k: int|
                0 <= x < w && 0 <= k < 3 ==> #[trigger] r@[3 * x + k] == turned(m, turn).at(
                    y as int,
                    x,
                    k,
                )
        }),
{
    let ghost m = ImageModel { pixels: src@, width, height };
    let total: usize = src.len();
    let w: u32 = match turn {
        Turn::Half => width,
        _ => height,
    };
    let mut r: Vec<u8> = Vec::new();
    let mut x: u32 = 0;
    while x < w
        invariant
            x <= w,
            w == turned_size(turn, width, height).0,
            y < turned_size(turn, width, height).1,
            m == (ImageModel { pixels: src@, width, height }),
            src@.len() == 3 * (width * height),
            src@.len() == total,
            r@.len() == 3 * x,
            forall|c: int, k: int|
                0 <= c < x && 0 <= k < 3 ==> #[trigger] r@[3 * c + k] == turned(m, turn).at(
                    y as int,
                    c,
                    k,
                ),
        decreases w - x,
    {
        let ghost before = r@;
        let (sy, sx): (u64, u64) = match turn {
            Turn::Right => ((height - 1 - x) as u64, y as u64),
            Turn::Half => (height as u64 - 1 - y as u64, (width - 1 - x) as u64),
            Turn::Left => (x as u64, width as u64 - 1 - y as u64),
        };
        proof {
            lemma_turned_at(m, turn, y as int, x as int, 0);
            lemma_turned_at(m, turn, y as int, x as int, 1);
            lemma_turned_at(m, turn, y as int, x as int, 2);
            lemma_packed_at(width as int, height as int, sy as int, sx as int, 2);
            assert(0 <= sy * width) by (nonlinear_arith);
        }
        let at: u64 = 3 * (sy * width as u64 + sx);
        let p: usize = at as usize;
        r.push(src[p]);
        r.push(src[p + 1]);
        r.push(src[p + 2]);
        proof {
            assert forall|c: int, k: int| 0 <= c < x + 1 && 0 <= k < 3 implies #[trigger] r@[3 * c
                + k] == turned(m, turn).at(y as int, c, k) by {
                if c < x {
                    assert(r@[3 * c + k] == before[3 * c + k]);
                }
            }
        }
        x = x + 1;
    }
    r
}

/// Turns an image; rows are turned on the thread pool.
fn turn_image(image: DecodedImage, turn: Turn) -> (r: DecodedImage)
    requires
        image@.wf(),
        turned_size(turn, image.width, image.height).0 > 0,
    ensures
        r@ == turned(image@, turn),
{
    let ghost m = image@;
    let width: u32 = image.width;
    let height: u32 = image.height;
    let (out_width, out_height): (u32, u32) = match turn {
        Turn::Half => (width, height),
        _ => (height, width),
    };
    let src: Vec<u8> = image.pixels;
    let total: usize = src.len();
    let mut pixels: Vec<u8> = zeros(total);
    let ghost before = pixels@;
    let ghost w = out_width as int;
    let ghost h = out_height as int;
    if out_height == 0 {
        proof {
            assert(3 * (m.width * m.height) == 0) by (nonlinear_arith)
                requires
                    m.width == 0 || m.height == 0,
            ;
            assert(w * h == 0) by (nonlinear_arith)
                requires
                    h == 0,
            ;
            assert(pixels@ =~= turned(m, turn).pixels);
        }
        return DecodedImage { pixels, width: out_width, height: out_height };
    }
    proof {
        assert(3 * (m.width * m.height) == h * (3 * w)) by (nonlinear_arith)
            requires
                (w == m.width && h == m.height) || (w == m.height && h == m.width),
        ;
        assert(3 * w <= h * (3 * w)) by (nonlinear_arith)
            requires
                h >= 1,
                w >= 0,
        ;
    }
    let row_bytes: usize = 3 * out_width as usize;
    {
        let source: &Vec<u8> = &src;
        let fill = |y: usize, row: Vec<u8>| -> (r: Vec<u8>)
            requires
                source@.len() == 3 * (width * height),
                out_height == turned_size(turn, width, height).1,
                row_bytes == 3 * turned_size(turn, width, height).0,
            ensures
                r@.len() == row@.len(),
                y < out_height && row@.len() == row_bytes ==> row_made(
                    source@,
                    width,
                    height,
                    turn,
                    y as int,
                    r@,
                ),
            {
                if y < out_height as usize && row.len() == row_bytes {
                    turned_row(source, width, height, turn, y)
                } else {
                    row
                }
            };
        parallel_chunks_mut(&mut pixels, row_bytes, false, fill);
        proof {
            let out = ImageModel { pixels: pixels@, width: out_width, height: out_height };
            lemma_turned_wf(m, turn);
            assert(w * h * 3 == h * (3 * w)) by (nonlinear_arith);
            assert forall|y: int, x: int, k: int|
                0 <= y < out.height && 0 <= x < out.width && 0 <= k < 3 implies #[trigger] out.at(
                y,
                x,
                k,
            ) == turned(m, turn).at(y, x, k) by {
                let b = row_bytes as int;
                assert(y * b < before.len() && (y + 1) * b <= before.len() && (y + 1) * b == y * b
                    + b && y * b >= 0 && y <= y * b) by (nonlinear_arith)
                    requires
                        before.len() == h * b,
                        0 <= y < h,
                        b >= 1,
                ;
                let i = y as usize;
                assert(chunk_done(before, pixels@, b, fill, i));
                let (c, r) = choose|c: Vec<u8>, r: Vec<u8>|
                    c@ == chunk_of(before, b, i as int) && r@ == chunk_of(pixels@, b, i as int)
                        && #[trigger] call_ensures(fill, (i, c), r);
                assert(c@.len() == b);
                assert(row_made(src@, width, height, turn, y, r@));
                lemma_packed_at(w, h, y, x, k);
                assert(r@[3 * x + k] == pixels@[y * b + (3 * x + k)]);
            }
            lemma_same_image(out, turned(m, turn));
        }
    }
    DecodedImage { pixels, width: out_width, height: out_height }
}

/// The bytes are row `y` of a turned image.
pub open spec fn row_made(
    src: Seq<u8>,
    width: u32,
    height: u32,
    turn: Turn,
    y: int,
    row: Seq<u8>,
) -> bool {
    let m = ImageModel { pixels: src, width, height };
    let w = turned_size(turn, width, height).0 as int;
    &&& row.len() == 3 * w
    &&& forall|x: int, k: int|
        0 <= x < w && 0 <= k < 3 ==> #[trigger] row[3 * x + k] == turned(m, turn).at(y, x, k)
}

fn zeros(n: usize) -> (r: Vec<u8>)
    ensures
        r@ == Seq::new(n as nat, |i: int| 0u8),
{
    let mut r: Vec<u8> = Vec::new();
    while r.len() < n
        invariant
            r@.len() <= n,
            forall|i: int| 0 <= i < r@.len() ==> r@[i] == 0,
        decreases n - r@.len(),
    {
        r.push(0);
    }
    assert(r@ =~= Seq::new(n as nat, |i: int| 0u8));
    r
}

/// The image can be rotated: it is sound, and where pixels move, the result's rows are not empty.
pub open spec fn rotatable(m: ImageModel, degrees: int) -> bool {
    match turn_of(degrees) {
        Some(t) => m.wf() && turned_size(t, m.width, m.height).0 > 0,
        None => true,
    }
}

/// Whether the image can be rotated.
pub fn can_rotate(image: &DecodedImage, degrees: u16) -> (r: bool)
    ensures
        r == rotatable(image@, degrees as int),
{
    let turned: u16 = degrees % 360;
    if turned != 90 && turned != 180 && turned != 270 {
        return true;
    }
    let len: u128 = image.pixels.len() as u128;
    assert(image.width * image.height <= 0xFFFF_FFFF * 0xFFFF_FFFF && 0 <= image.width
        * image.height) by (nonlinear_arith)
        requires
            image.width <= 0xFFFF_FFFF,
            image.height <= 0xFFFF_FFFF,
    ;
    let sound: bool = len == 3 * (image.width as u128 * image.height as u128);
    if turned == 180 {
        sound && image.width > 0
    } else {
        sound && image.height > 0
    }
}

/// Rotates an image clockwise. Angles that are no multiple of 90 degrees leave it as it is.
pub fn rotate_rgb(image: DecodedImage, degrees: u16) -> (r: DecodedImage)
    requires
        rotatable(image@, degrees as int),
    ensures
        r@ == rotated(image@, degrees as int),
{
    let turned: u16 = degrees % 360;
    if turned == 180 {
        turn_image(image, Turn::Half)
    } else if turned == 90 {
        turn_image(image, Turn::Right)
    } else if turned == 270 {
        turn_image(image, Turn::Left)
    } else {
        image
    }
}

} // verus!
