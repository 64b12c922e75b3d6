//! Transform and quantization of an image, group by group and block by block.
//!
//! The arithmetic of one block is the caller's kernel. Which pixels a block takes, and where its
//! low frequencies, coefficients and counts go, is decided here. Floating-point values are
//! carried as their bits.
use crate::jxl::grid::lemma_flat;
use vstd::prelude::*;

verus! {

// ---- rectangles ----
/// Whether a position lies in a rectangle of a grid.
pub open spec fn in_rect(p: int, width: int, x: int, y: int, w: int, h: int) -> bool {
    x <= p % width < x + w && y <= p / width < y + h
}

/// Whether a position comes before column `x` of row `y`.
spec fn comes_before(p: int, width: int, x: int, y: int) -> bool {
    p / width < y || (p / width == y && p % width < x)
}

/// Data of a grid after a rectangle of it was replaced.
pub open spec fn rect_put<T>(
    data: Seq<T>,
    width: int,
    x: int,
    y: int,
    w: int,
    h: int,
    values: Seq<T>,
) -> Seq<T> {
    Seq::new(
        data.len(),
        |p: int|
            if in_rect(p, width, x, y, w, h) {
                values[(p / width - y) * w + (p % width - x)]
            } else {
                data[p]
            },
    )
}

/// A rectangle of a grid.
pub open spec fn rect_of<T>(data: Seq<T>, width: int, x: int, y: int, w: int, h: int) -> Seq<T> {
    Seq::new((w * h) as nat, |p: int| data[(y + p / w) * width + (x + p % w)])
}

/// The rectangle lies within a grid of rows of `width`.
pub open spec fn rect_fits(len: int, width: int, x: int, y: int, w: int, h: int) -> bool {
    &&& 0 <= x
    &&& 0 <= y
    &&& 0 <= w
    &&& 0 <= h
    &&& x + w <= width
    &&& (y + h) * width <= len
}

proof fn lemma_rect_cell(len: int, width: int, x: int, y: int, w: int, h: int, i: int, j: int)
    requires
        rect_fits(len, width, x, y, w, h),
        0 <= i < w,
        0 <= j < h,
    ensures
        0 <= (y + j) * width,
        0 <= (y + j) * width + (x + i) < len,
        0 <= j * w + i < w * h,
        0 <= j * w,
        ((y + j) * width + (x + i)) / width == y + j,
        ((y + j) * width + (x + i)) % width == x + i,
        (j * w + i) / w == j,
        (j * w + i) % w == i,
{
    lemma_flat(x + i, y + j, width, y + h);
    assert(width * (y + h) == (y + h) * width) by (nonlinear_arith);
    lemma_flat(i, j, w, h);
    crate::vp8::planes::lemma_row_col(y + j, x + i, width);
    crate::vp8::planes::lemma_row_col(j, i, w);
}

/// Replaces a rectangle.
pub fn put_rect<T: Copy>(
    data: &mut Vec<T>,
    width: usize,
    x: usize,
    y: usize,
    w: usize,
    h: usize,
    values: &Vec<T>,
)
    requires
        width >= 1,
        rect_fits(old(data)@.len() as int, width as int, x as int, y as int, w as int, h as int),
        values@.len() == w * h,
    ensures
        final(data)@ == rect_put(
            old(data)@,
            width as int,
            x as int,
            y as int,
            w as int,
            h as int,
            values@,
        ),
{
    let ghost before = data@;
    let total: usize = data.len();
    let count: usize = values.len();
    let ghost goal = rect_put(
        before,
        width as int,
        x as int,
        y as int,
        w as int,
        h as int,
        values@,
    );
    let mut j: usize = 0;
    let mut i: usize = 0;
    while j < h
        invariant
            j <= h,
            i <= w,
            width >= 1,
            total == before.len(),
            count == values@.len(),
            data@.len() == before.len(),
            values@.len() == w * h,
            rect_fits(before.len() as int, width as int, x as int, y as int, w as int, h as int),
            goal == rect_put(
                before,
                width as int,
                x as int,
                y as int,
                w as int,
                h as int,
                values@,
            ),
            forall|p: int|
                0 <= p < before.len() ==> #[trigger] data@[p] == (if in_rect(
                    p,
                    width as int,
                    x as int,
                    y as int,
                    w as int,
                    h as int,
                ) && comes_before(p, width as int, x + i, y + j) {
                    goal[p]
                } else {
                    before[p]
                }),
        decreases h - j, w - i,
    {
        if i >= w {
            i = 0;
            j = j + 1;
        } else {
            proof {
                lemma_rect_cell(
                    before.len() as int,
                    width as int,
                    x as int,
                    y as int,
                    w as int,
                    h as int,
                    i as int,
                    j as int,
                );
            }
            let at: usize = (y + j) * width + (x + i);
            data.set(at, values[j * w + i]);
            proof {
                assert forall|p: int| 0 <= p < before.len() implies #[trigger] data@[p] == (
                if in_rect(p, width as int, x as int, y as int, w as int, h as int)
                    && comes_before(p, width as int, x + i + 1, y + j) {
                    goal[p]
                } else {
                    before[p]
                }) by {
                    let row = p / width as int;
                    let col = p % width as int;
                    if p != at && row == y + j && col == x + i {
                        vstd::arithmetic::div_mod::lemma_fundamental_div_mod(p, width as int);
                        assert(width * (y + j) == (y + j) * width) by (nonlinear_arith);
                    }
                }
            }
            i = i + 1;
        }
    }
    assert(data@ =~= goal);
}

/// Copies a rectangle.
pub fn get_rect<T: Copy>(
    data: &Vec<T>,
    width: usize,
    x: usize,
    y: usize,
    w: usize,
    h: usize,
) -> (r: Vec<T>)
    requires
        width >= 1,
        rect_fits(data@.len() as int, width as int, x as int, y as int, w as int, h as int),
    ensures
        r@ == rect_of(data@, width as int, x as int, y as int, w as int, h as int),
{
    let mut r: Vec<T> = Vec::new();
    let total: usize = data.len();
    let ghost goal = rect_of(data@, width as int, x as int, y as int, w as int, h as int);
    let mut j: usize = 0;
    let mut i: usize = 0;
    while j < h && w > 0
        invariant
            j <= h,
            i <= w,
            j == h ==> i == 0,
            width >= 1,
            total == data@.len(),
            rect_fits(data@.len() as int, width as int, x as int, y as int, w as int, h as int),
            goal == rect_of(data@, width as int, x as int, y as int, w as int, h as int),
            r@.len() == j * w + i,
            forall|p: int| 0 <= p < r@.len() ==> #[trigger] r@[p] == goal[p],
        decreases h - j, w - i,
    {
        if i >= w {
            assert((j + 1) * w == j * w + w) by (nonlinear_arith);
            i = 0;
            j = j + 1;
        } else {
            proof {
                lemma_rect_cell(
                    data@.len() as int,
                    width as int,
                    x as int,
                    y as int,
                    w as int,
                    h as int,
                    i as int,
                    j as int,
                );
            }
            r.push(data[(y + j) * width + (x + i)]);
            i = i + 1;
        }
    }
    proof {
        assert(r@.len() == w * h) by {
            if w > 0 {
                assert(j * w + i == w * h) by (nonlinear_arith)
                    requires
                        j == h,
                        i == 0,
                ;
            } else {
                assert(j * w + i == 0 && w * h == 0) by (nonlinear_arith)
                    requires
                        w == 0,
                        i == 0,
                ;
            }
        }
        assert(r@ =~= goal);
    }
    r
}

/// What was put is what is found, and what does not overlap it is not changed.
pub proof fn lemma_put_rect<T>(
    data: Seq<T>,
    width: int,
    x: int,
    y: int,
    w: int,
    h: int,
    values: Seq<T>,
)
    requires
        width >= 1,
        rect_fits(data.len() as int, width, x, y, w, h),
        values.len() == w * h,
    ensures
        rect_of(rect_put(data, width, x, y, w, h, values), width, x, y, w, h) == values,
{
    let after = rect_put(data, width, x, y, w, h, values);
    let found = rect_of(after, width, x, y, w, h);
    assert forall|p: int| 0 <= p < values.len() implies found[p] == values[p] by {
        if w == 0 {
            assert(w * h == 0) by (nonlinear_arith)
                requires
                    w == 0,
            ;
        }
        let i = p % w;
        let j = p / w;
        vstd::arithmetic::div_mod::lemma_fundamental_div_mod(p, w);
        vstd::arithmetic::div_mod::lemma_mod_bound(p, w);
        assert(0 <= j < h) by (nonlinear_arith)
            requires
                p == w * j + i,
                0 <= i < w,
                0 <= p < w * h,
        ;
        lemma_rect_cell(data.len() as int, width, x, y, w, h, i, j);
        assert(w * j == j * w) by (nonlinear_arith);
    }
    assert(found =~= values);
}

} // verus!
