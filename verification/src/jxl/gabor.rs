//! The smoothing filter over a pixel and its eight neighbours.
//!
//! The arithmetic is the caller's kernel; floating-point values are carried as their bits.
use crate::jxl::grid::{lemma_flat, Grid};
use crate::jxl::region::Region;
use crate::parallel::parallel_map;
use vstd::prelude::*;

verus! {

/// A pixel with its neighbours, row by row.
pub struct Stencil {
    pub top: [u32; 3],
    pub center: [u32; 3],
    pub bottom: [u32; 3],
}

/// The nearest position within `0..n`.
pub open spec fn clamp_to(i: int, n: int) -> int {
    if i < 0 {
        0
    } else if i >= n {
        n - 1
    } else {
        i
    }
}

pub open spec fn stencil_row(grid: Grid<u32>, x: int, y: int) -> Seq<u32> {
    let r = clamp_to(y, grid.height as int);
    seq![
        grid.at(clamp_to(x - 1, grid.width as int), r),
        grid.at(x, r),
        grid.at(clamp_to(x + 1, grid.width as int), r),
    ]
}

/// Neighbours outside the image are taken from its edge.
pub open spec fn is_stencil(s: Stencil, grid: Grid<u32>, x: int, y: int) -> bool {
    &&& s.top@ == stencil_row(grid, x, y - 1)
    &&& s.center@ == stencil_row(grid, x, y)
    &&& s.bottom@ == stencil_row(grid, x, y + 1)
}

fn read_row(grid: &Grid<u32>, x: usize, r: usize, Ghost(y): Ghost<int>) -> (a: [u32; 3])
    requires
        grid.wf(),
        x < grid.width,
        r < grid.height,
        r == clamp_to(y, grid.height as int),
    ensures
        a@ == stencil_row(*grid, x as int, y),
{
    let l: usize = if x == 0 {
        0
    } else {
        x - 1
    };
    let rt: usize = if x + 1 < grid.width {
        x + 1
    } else {
        x
    };
    let a: [u32; 3] = [grid.get(l, r), grid.get(x, r), grid.get(rt, r)];
    assert(a@ =~= stencil_row(*grid, x as int, y));
    a
}

fn read_stencil(grid: &Grid<u32>, x: usize, y: usize) -> (s: Stencil)
    requires
        grid.wf(),
        x < grid.width,
        y < grid.height,
    ensures
        is_stencil(s, *grid, x as int, y as int),
{
    let up: usize = if y == 0 {
        0
    } else {
        y - 1
    };
    let down: usize = if y + 1 < grid.height {
        y + 1
    } else {
        y
    };
    Stencil {
        top: read_row(grid, x, up, Ghost(y - 1)),
        center: read_row(grid, x, y, Ghost(y as int)),
        bottom: read_row(grid, x, down, Ghost(y + 1)),
    }
}

/// The kernel may make this value of a pixel.
pub open spec fn filtered<K: Fn(&Stencil) -> u32>(
    kernel: K,
    grid: Grid<u32>,
    x: int,
    y: int,
    v: u32,
) -> bool {
    exists|s: Stencil| #[trigger] is_stencil(s, grid, x, y) && call_ensures(kernel, (&s,), v)
}

fn filter_row<K: Fn(&Stencil) -> u32>(kernel: &K, grid: &Grid<u32>, y: usize) -> (row: Vec<u32>)
    requires
        grid.wf(),
        y < grid.height,
        forall|s: Stencil| #[trigger] call_requires(*kernel, (&s,)),
    ensures
        row@.len() == grid.width,
        forall|x: int|
            0 <= x < grid.width ==> filtered(*kernel, *grid, x, y as int, #[trigger] row@[x]),
{
    let mut row: Vec<u32> = Vec::new();
    let mut x: usize = 0;
    while x < grid.width
        invariant
            x <= grid.width,
            grid.wf(),
            y < grid.height,
            forall|s: Stencil| #[trigger] call_requires(*kernel, (&s,)),
            row@.len() == x,
            forall|i: int|
                0 <= i < x ==> filtered(*kernel, *grid, i, y as int, #[trigger] row@[i]),
        decreases grid.width - x,
    {
        let s = read_stencil(grid, x, y);
        assert(call_requires(*kernel, (&s,)));
        let v: u32 = kernel(&s);
        assert(call_ensures(*kernel, (&s,), v));
        assert(filtered(*kernel, *grid, x as int, y as int, v));
        row.push(v);
        x = x + 1;
    }
    row
}

/// Filters a channel; rows are independent of each other.
pub fn apply_gabor_like<K: Fn(&Stencil) -> u32 + Send + Sync>(
    kernel: &K,
    grid: &Grid<u32>,
    sequential: bool,
) -> (out: Grid<u32>)
    requires
        grid.wf(),
        forall|s: Stencil| #[trigger] call_requires(*kernel, (&s,)),
    ensures
        out.wf(),
        out.width == grid.width,
        out.height == grid.height,
        forall|x: int, y: int|
            #![trigger out.at(x, y)]
            0 <= x < grid.width && 0 <= y < grid.height ==> filtered(
                *kernel,
                *grid,
                x,
                y,
                out.at(x, y),
            ),
{
    let height: usize = grid.height;
    let width: usize = grid.width;
    let work = |y: usize| -> (row: Vec<u32>)
        requires
            y < height,
        ensures
            row@.len() == width,
            forall|x: int|
                0 <= x < width ==> filtered(*kernel, *grid, x, y as int, #[trigger] row@[x]),
        { filter_row(kernel, grid, y) };
    let rows: Vec<Vec<u32>> = parallel_map(height, sequential, work);
    assert forall|y: usize| y < height implies {
        &&& (#[trigger] rows@[y as int])@.len() == width
        &&& forall|x: int|
            0 <= x < width ==> filtered(
                *kernel,
                *grid,
                x,
                y as int,
                #[trigger] rows@[y as int]@[x],
            )
    } by {
        assert(call_ensures(work, (y,), rows@[y as int]));
    }
    join_rows(&rows, width, Ghost(|x: int, y: int, v: u32| filtered(*kernel, *grid, x, y, v)))
}

/// Puts rows of the same length together.
fn join_rows(rows: &Vec<Vec<u32>>, width: usize, Ghost(ok): Ghost<spec_fn(int, int, u32) -> bool>) -> (out:
    Grid<u32>)
    requires
        forall|y: usize|
            y < rows@.len() ==> (#[trigger] rows@[y as int])@.len() == width && forall|x: int|
                0 <= x < width ==> ok(x, y as int, #[trigger] rows@[y as int]@[x]),
    ensures
        out.wf(),
        out.width == width,
        out.height == rows@.len(),
        forall|x: int, y: int|
            #![trigger out.at(x, y)]
            0 <= x < width && 0 <= y < rows@.len() ==> ok(x, y, out.at(x, y)),
{
    let height: usize = rows.len();
    let mut data: Vec<u32> = Vec::new();
    let mut y: usize = 0;
    while y < height
        invariant
            y <= height,
            height == rows@.len(),
            forall|j: usize|
                j < rows@.len() ==> (#[trigger] rows@[j as int])@.len() == width && forall|x: int|
                    0 <= x < width ==> ok(x, j as int, #[trigger] rows@[j as int]@[x]),
            data@.len() == y * width,
            forall|i: int, j: int|
                #![trigger data@[j * width + i]]
                0 <= i < width && 0 <= j < y ==> ok(i, j, data@[j * width + i]),
        decreases height - y,
    {
        let row = &rows[y];
        assert(rows@[y as int]@.len() == width);
        let ghost before = data@;
        let mut x: usize = 0;
        while x < width
            invariant
                x <= width,
                row@.len() == width,
                data@ == before + row@.take(x as int),
            decreases width - x,
        {
            data.push(row[x]);
            x = x + 1;
            assert(data@ =~= before + row@.take(x as int));
        }
        proof {
            assert((y + 1) * width == y * width + width) by (nonlinear_arith);
            assert forall|i: int, j: int|
                #![trigger data@[j * width + i]]
                0 <= i < width && 0 <= j < y + 1 implies ok(i, j, data@[j * width + i]) by {
                if j < y {
                    lemma_flat(i, j, width as int, y as int);
                    assert(width * y == y * width) by (nonlinear_arith);
                    assert(data@[j * width + i] == before[j * width + i]);
                } else {
                    assert(data@[j * width + i] == row@[i]);
                    assert(ok(i, y as int, rows@[y as int]@[i]));
                }
            }
        }
        y = y + 1;
    }
    assert(y * width == width * height) by (nonlinear_arith)
        requires
            y == height,
    ;
    let out = Grid { data, width, height };
    assert forall|x: int, y: int|
        #![trigger out.at(x, y)]
        0 <= x < width && 0 <= y < height implies ok(x, y, out.at(x, y)) by {
        assert(ok(x, y, data@[y * width + x]));
    }
    out
}

/// Part of a channel that is filtered: where it starts within what is at hand.
pub fn filter_area(region: Region, padded: Region) -> (r: (usize, usize, usize, usize))
    requires
        region.left <= padded.left,
        region.top <= padded.top,
        padded.right() <= region.right(),
        padded.bottom() <= region.bottom(),
    ensures
        r.0 == padded.left - region.left,
        r.1 == padded.top - region.top,
        r.2 == r.0 + padded.width,
        r.3 == r.1 + padded.height,
        r.2 <= region.width,
        r.3 <= region.height,
{
    let left: usize = (padded.left as i64 - region.left as i64) as usize;
    let top: usize = (padded.top as i64 - region.top as i64) as usize;
    (left, top, left + padded.width as usize, top + padded.height as usize)
}

} // verus!
