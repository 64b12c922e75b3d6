//! Rectangles of an image.
use crate::math::least;
use vstd::prelude::*;

verus! {

/// A rectangle; its upper left corner may lie outside the image.
#[derive(Debug, Clone, Copy, PartialEq, Eq, Structural)]
pub struct Region {
    pub left: i32,
    pub top: i32,
    pub width: u32,
    pub height: u32,
}

impl Region {
    pub open spec fn right(&self) -> int {
        self.left + self.width
    }

    pub open spec fn bottom(&self) -> int {
        self.top + self.height
    }

    /// Whether a pixel lies in the rectangle.
    pub open spec fn has(&self, x: int, y: int) -> bool {
        self.left <= x < self.right() && self.top <= y < self.bottom()
    }

    /// The rectangle of an image.
    pub open spec fn padded(self, size: int) -> Region {
        Region {
            left: (self.left - size) as i32,
            top: (self.top - size) as i32,
            width: (self.width + 2 * size) as u32,
            height: (self.height + 2 * size) as u32,
        }
    }

    pub fn with_size(width: u32, height: u32) -> (r: Region)
        ensures
            r == (Region { left: 0, top: 0, width, height }),
    {
        Region { left: 0, top: 0, width, height }
    }

    pub fn is_empty(&self) -> (r: bool)
        ensures
            r == (self.width == 0 || self.height == 0),
    {
        self.width == 0 || self.height == 0
    }

    /// The rectangle of the pixels that lie in both; at the origin where there are none.
    pub open spec fn meet(self, other: Region) -> Region {
        let x0 = most(self.left as int, other.left as int);
        let x1 = least(self.right(), other.right());
        let y0 = most(self.top as int, other.top as int);
        let y1 = least(self.bottom(), other.bottom());
        if x1 <= x0 || y1 <= y0 {
            Region { left: 0, top: 0, width: 0, height: 0 }
        } else {
            Region {
                left: x0 as i32,
                top: y0 as i32,
                width: (x1 - x0) as u32,
                height: (y1 - y0) as u32,
            }
        }
    }

    /// The smallest rectangle around this one whose sides lie on multiples of `dim`.
    pub open spec fn aligned(self, dim: int) -> Region {
        let left = floor_to(self.left as int, dim);
        let top = floor_to(self.top as int, dim);
        Region {
            left: left as i32,
            top: top as i32,
            width: ceil_to(self.width + (self.left - left), dim) as u32,
            height: ceil_to(self.height + (self.top - top), dim) as u32,
        }
    }

    /// The pixels that lie in both rectangles.
    pub fn intersection(self, other: Region) -> (r: Region)
        ensures
            r == self.meet(other),
            forall|x: int, y: int| #[trigger]
                r.has(x, y) == (self.has(x, y) && other.has(x, y)),
            (r.width == 0 || r.height == 0) == (forall|x: int, y: int|
                !(#[trigger] self.has(x, y) && other.has(x, y))),
            r.width <= self.width,
            r.height <= self.height,
            r.width <= other.width,
            r.height <= other.height,
    {
        let right: i64 = self.left as i64 + self.width as i64;
        let bottom: i64 = self.top as i64 + self.height as i64;
        let right2: i64 = other.left as i64 + other.width as i64;
        let bottom2: i64 = other.top as i64 + other.height as i64;
        let x0: i32 = if self.left > other.left {
            self.left
        } else {
            other.left
        };
        let x1: i64 = if right < right2 {
            right
        } else {
            right2
        };
        let y0: i32 = if self.top > other.top {
            self.top
        } else {
            other.top
        };
        let y1: i64 = if bottom < bottom2 {
            bottom
        } else {
            bottom2
        };
        if x1 <= x0 as i64 || y1 <= y0 as i64 {
            return Region { left: 0, top: 0, width: 0, height: 0 };
        }
        let r = Region {
            left: x0,
            top: y0,
            width: (x1 - x0 as i64) as u32,
            height: (y1 - y0 as i64) as u32,
        };
        assert(self.has(x0 as int, y0 as int) && other.has(x0 as int, y0 as int));
        r
    }

    /// The rectangle with `size` more pixels on every side.
    pub fn pad(self, size: u32) -> (r: Region)
        requires
            self.left - size >= i32::MIN,
            self.top - size >= i32::MIN,
            self.width + 2 * size <= u32::MAX,
            self.height + 2 * size <= u32::MAX,
        ensures
            r == self.padded(size as int),
            r.left == self.left - size,
            r.top == self.top - size,
            r.width == self.width + 2 * size,
            r.height == self.height + 2 * size,
    {
        Region {
            left: (self.left as i64 - size as i64) as i32,
            top: (self.top as i64 - size as i64) as i32,
            width: self.width + 2 * size,
            height: self.height + 2 * size,
        }
    }

    /// The smallest rectangle around this one with sides on multiples of `dim` can be told.
    pub open spec fn alignable(&self, dim: int) -> bool {
        &&& floor_to(self.left as int, dim) >= i32::MIN
        &&& floor_to(self.top as int, dim) >= i32::MIN
        &&& self.width + (self.left - floor_to(self.left as int, dim)) + dim <= u32::MAX
        &&& self.height + (self.top - floor_to(self.top as int, dim)) + dim <= u32::MAX
    }

    /// The smallest rectangle around this one whose sides lie on multiples of `dim`.
    pub fn container_aligned(self, dim: u32) -> (r: Region)
        requires
            dim >= 1,
            self.alignable(dim as int),
        ensures
            r == self.aligned(dim as int),
            r.left == floor_to(self.left as int, dim as int),
            r.top == floor_to(self.top as int, dim as int),
            r.width == ceil_to(
                self.width + (self.left - floor_to(self.left as int, dim as int)),
                dim as int,
            ),
            r.height == ceil_to(
                self.height + (self.top - floor_to(self.top as int, dim as int)),
                dim as int,
            ),
    {
        let x_diff: u32 = offset_in(self.left, dim);
        let y_diff: u32 = offset_in(self.top, dim);
        Region {
            left: (self.left as i64 - x_diff as i64) as i32,
            top: (self.top as i64 - y_diff as i64) as i32,
            width: round_up(self.width + x_diff, dim),
            height: round_up(self.height + y_diff, dim),
        }
    }
}

pub open spec fn most(a: int, b: int) -> int {
    if a > b {
        a
    } else {
        b
    }
}

/// The largest multiple of `dim` that is not above `n`.
pub open spec fn floor_to(n: int, dim: int) -> int {
    n - n % dim
}

/// The smallest multiple of `dim` that is not below `n`.
pub open spec fn ceil_to(n: int, dim: int) -> int {
    (n + dim - 1) / dim * dim
}

/// How far `n` lies above a multiple of `dim`.
fn offset_in(n: i32, dim: u32) -> (r: u32)
    requires
        dim >= 1,
    ensures
        r == n as int % dim as int,
        r < dim,
{
    // a multiple of `dim` that makes the number positive
    let lift: i64 = dim as i64 * 0x7FFF_FFFF + dim as i64;
    let shifted: i64 = n as i64 + lift;
    proof {
        let d = dim as int;
        let k = 0x8000_0000int;
        assert(lift == d * k);
        assert(d * k >= k) by (nonlinear_arith)
            requires
                d >= 1,
                k >= 0,
        ;
        vstd::arithmetic::div_mod::lemma_mod_multiples_vanish(k, n as int, d);
        vstd::arithmetic::div_mod::lemma_mod_bound(n as int, d);
    }
    (shifted as u64 % dim as u64) as u32
}

fn round_up(n: u32, dim: u32) -> (r: u32)
    requires
        dim >= 1,
        n + dim <= u32::MAX,
    ensures
        r == ceil_to(n as int, dim as int),
{
    let ghost a = (n + dim - 1) as int;
    let ghost d = dim as int;
    assert(0 <= a / d * d <= a) by (nonlinear_arith)
        requires
            a >= 0,
            d >= 1,
    ;
    (n + (dim - 1)) / dim * dim
}

/// The container holds the rectangle.
pub proof fn lemma_container(r: Region, c: Region, dim: int)
    requires
        dim >= 1,
        c.left == floor_to(r.left as int, dim),
        c.top == floor_to(r.top as int, dim),
        c.width == ceil_to(r.width + (r.left - floor_to(r.left as int, dim)), dim),
        c.height == ceil_to(r.height + (r.top - floor_to(r.top as int, dim)), dim),
    ensures
        forall|x: int, y: int| #[trigger] r.has(x, y) ==> c.has(x, y),
        c.left as int % dim == 0,
        c.top as int % dim == 0,
        c.width as int % dim == 0,
        c.height as int % dim == 0,
{
    lemma_aligned(r.left as int, r.width as int, dim);
    lemma_aligned(r.top as int, r.height as int, dim);
}

proof fn lemma_aligned(start: int, len: int, dim: int)
    requires
        dim >= 1,
        len >= 0,
    ensures
        floor_to(start, dim) <= start,
        floor_to(start, dim) + ceil_to(len + (start - floor_to(start, dim)), dim) >= start + len,
        floor_to(start, dim) % dim == 0,
        ceil_to(len + (start - floor_to(start, dim)), dim) % dim == 0,
{
    vstd::arithmetic::div_mod::lemma_mod_bound(start, dim);
    vstd::arithmetic::div_mod::lemma_fundamental_div_mod(start, dim);
    let q = start / dim;
    assert(start - start % dim == q * dim + 0) by (nonlinear_arith)
        requires
            start == dim * q + start % dim,
    ;
    vstd::arithmetic::div_mod::lemma_fundamental_div_mod_converse(
        start - start % dim,
        dim,
        q,
        0,
    );
    let n = len + (start - floor_to(start, dim));
    let a = n + dim - 1;
    vstd::arithmetic::div_mod::lemma_fundamental_div_mod(a, dim);
    vstd::arithmetic::div_mod::lemma_mod_bound(a, dim);
    let k = a / dim;
    assert(k * dim >= n) by (nonlinear_arith)
        requires
            a == dim * k + a % dim,
            a % dim < dim,
            a == n + dim - 1,
    ;
    vstd::arithmetic::div_mod::lemma_mod_multiples_basic(k, dim);
}

/// A padded rectangle holds the pixels that are no further away than the padding.
pub proof fn lemma_padded(r: Region, size: u32, x: int, y: int)
    requires
        r.left - size >= i32::MIN,
        r.top - size >= i32::MIN,
        r.width + 2 * size <= u32::MAX,
        r.height + 2 * size <= u32::MAX,
    ensures
        r.padded(size as int).has(x, y) == (r.left <= x + size && x - size < r.right() && r.top <= y
            + size && y - size < r.bottom()),
{
}

} // verus!
