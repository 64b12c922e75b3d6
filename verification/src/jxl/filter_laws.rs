//! Which samples the filters of a frame look at.
use crate::jxl::epf::{
    at_border, compared_offsets, is_inner, is_pixel, kernel_offsets, mirrored, reach, value_at,
    EpfPixel, EpfRows,
};
use crate::jxl::gabor::{is_stencil, stencil_row, Stencil};
use crate::jxl::grid::Grid;
use vstd::prelude::*;

verus! {

/// Steps from a pixel to another, along rows and columns.
pub open spec fn steps_to(dx: int, dy: int) -> int {
    (if dx < 0 {
        -dx
    } else {
        dx
    }) + (if dy < 0 {
        -dy
    } else {
        dy
    })
}

/// The first pass of the edge-preserving filter weighs every pixel that is one or two steps away;
/// the later ones those that are one step away. None is weighed twice.
pub proof fn lemma_kernel(step: int, dx: int, dy: int)
    ensures
        step == 0 ==> kernel_offsets(step).contains((dx, dy)) == (1 <= steps_to(dx, dy) <= 2),
        step != 0 ==> kernel_offsets(step).contains((dx, dy)) == (steps_to(dx, dy) == 1),
        kernel_offsets(step).no_duplicates(),
{
    let s = kernel_offsets(step);
    if step == 0 {
        assert(s[0] == (0int, -2int) && s[1] == (-1int, -1int) && s[2] == (0int, -1int));
        assert(s[3] == (1int, -1int) && s[4] == (-2int, 0int) && s[5] == (-1int, 0int));
        assert(s[6] == (1int, 0int) && s[7] == (2int, 0int) && s[8] == (-1int, 1int));
        assert(s[9] == (0int, 1int) && s[10] == (1int, 1int) && s[11] == (0int, 2int));
        if 1 <= steps_to(dx, dy) <= 2 {
            assert(-2 <= dx <= 2 && -2 <= dy <= 2);
            assert(s.contains((dx, dy)));
        }
    } else {
        assert(s[0] == (0int, -1int) && s[1] == (0int, 1int));
        assert(s[2] == (-1int, 0int) && s[3] == (1int, 0int));
        if steps_to(dx, dy) == 1 {
            assert(s.contains((dx, dy)));
        }
    }
}

/// Two pixels are compared by themselves and their direct neighbours, in the last pass by
/// themselves alone.
pub proof fn lemma_compared(step: int, dx: int, dy: int)
    ensures
        step != 2 ==> compared_offsets(step).contains((dx, dy)) == (steps_to(dx, dy) <= 1),
        step == 2 ==> compared_offsets(step).contains((dx, dy)) == (steps_to(dx, dy) == 0),
        compared_offsets(step).no_duplicates(),
{
    let s = compared_offsets(step);
    if step != 2 {
        assert(s[0] == (0int, -1int) && s[1] == (1int, 0int) && s[2] == (0int, 0int));
        assert(s[3] == (-1int, 0int) && s[4] == (0int, 1int));
        if steps_to(dx, dy) <= 1 {
            assert(s.contains((dx, dy)));
        }
    } else {
        assert(s[0] == (0int, 0int));
    }
}

/// No pass looks further than its reach.
pub proof fn lemma_reach(step: int, a: (int, int), b: (int, int))
    requires
        0 <= step <= 2,
        kernel_offsets(step).contains(a),
        compared_offsets(step).contains(b),
    ensures
        -reach(step) <= a.0 + b.0 <= reach(step),
        -reach(step) <= a.1 + b.1 <= reach(step),
{
    lemma_kernel(step, a.0, a.1);
    lemma_compared(step, b.0, b.1);
}

/// Beyond an edge a row goes on as its own image: the pixel next to the edge is seen again first.
pub proof fn lemma_mirrored(x: int, n: int)
    requires
        0 < n,
        -n <= x < 2 * n,
    ensures
        0 <= mirrored(x, n) < n,
        0 <= x < n ==> mirrored(x, n) == x,
        mirrored(-1 - x, n) == mirrored(x, n) || x >= n,
        mirrored(2 * n - 1 - x, n) == mirrored(x, n) || x < 0,
{
}

/// Inside a row nothing beyond an edge is looked at.
pub proof fn lemma_inner_plain(x: int, dx: int, width: int, step: int)
    requires
        0 <= step <= 2,
        0 <= x,
        is_inner(x, width, step),
        -reach(step) <= dx <= reach(step),
    ensures
        mirrored(x + dx, width) == x + dx,
{
}

/// A pixel lies at the border of its block exactly if some direct neighbour belongs to another
/// block.
pub proof fn lemma_border(x: int, y: int)
    requires
        0 <= x,
        0 <= y,
    ensures
        at_border(x, y) == ((x - 1) / 8 != x / 8 || (x + 1) / 8 != x / 8 || (y - 1) / 8 != y / 8 || (
        y + 1) / 8 != y / 8),
{
}

/// A pixel is filtered from its own samples, those of the pixels that the pass weighs, and the
/// strength of its block of eight columns.
pub proof fn lemma_tapped(
    p: EpfPixel,
    rows: EpfRows,
    width: int,
    sigma_row: Seq<u32>,
    step: int,
    x: int,
    y: int,
    i: int,
    c: int,
)
    requires
        is_pixel(p, rows, width, sigma_row, step, x, y),
        0 <= x < width,
        0 <= c < 3,
        0 <= i < kernel_offsets(step).len(),
    ensures
        p.original@[c] == rows@[c]@[3]@[x],
        8 * (x / 8) <= x < 8 * (x / 8) + 8,
        p.sigma == sigma_row[x / 8],
        ({
            let k = kernel_offsets(step)[i];
            0 <= x + k.0 < width ==> p.taps@[i].value@[c] == rows@[c]@[3 + k.1]@[x + k.0]
        }),
{
    let k = kernel_offsets(step)[i];
    let t = p.taps@[i];
    assert(t.value@[c] == value_at(rows, width, c, x, k.0, k.1));
    assert(p.original@[c] == value_at(rows, width, c, x, 0, 0));
}

/// Around a pixel that has neighbours on all sides the stencil holds the nine pixels of its square,
/// row by row; at the edges of a grid the pixels of the edge stand for those beyond it.
pub proof fn lemma_stencil(s: Stencil, grid: Grid<u32>, x: int, y: int)
    requires
        is_stencil(s, grid, x, y),
        0 <= x < grid.width,
        0 <= y < grid.height,
    ensures
        s.center@[1] == grid.at(x, y),
        s.center@[0] == if x > 0 {
            grid.at(x - 1, y)
        } else {
            grid.at(x, y)
        },
        s.center@[2] == if x + 1 < grid.width {
            grid.at(x + 1, y)
        } else {
            grid.at(x, y)
        },
        y > 0 ==> s.top@[1] == grid.at(x, y - 1),
        y > 0 && x > 0 ==> s.top@[0] == grid.at(x - 1, y - 1),
        y > 0 && x + 1 < grid.width ==> s.top@[2] == grid.at(x + 1, y - 1),
        y + 1 < grid.height ==> s.bottom@[1] == grid.at(x, y + 1),
        y + 1 < grid.height && x > 0 ==> s.bottom@[0] == grid.at(x - 1, y + 1),
        y + 1 < grid.height && x + 1 < grid.width ==> s.bottom@[2] == grid.at(x + 1, y + 1),
        y == 0 ==> s.top@ == s.center@,
        y + 1 == grid.height ==> s.bottom@ == s.center@,
{
    let a = stencil_row(grid, x, y - 1);
    let b = stencil_row(grid, x, y);
    let c = stencil_row(grid, x, y + 1);
    assert(a[0] == s.top@[0] && a[1] == s.top@[1] && a[2] == s.top@[2]);
    assert(b[0] == s.center@[0] && b[1] == s.center@[1] && b[2] == s.center@[2]);
    assert(c[0] == s.bottom@[0] && c[1] == s.bottom@[1] && c[2] == s.bottom@[2]);
}

} // verus!
