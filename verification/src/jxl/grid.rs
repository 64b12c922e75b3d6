//! Two-dimensional grids and rectangular parts of them.
use vstd::prelude::*;

verus! {

/// A grid, row by row.
pub struct Grid<T> {
    pub data: Vec<T>,
    pub width: usize,
    pub height: usize,
}

/// A position in a grid is a position in its data.
pub proof fn lemma_flat(x: int, y: int, width: int, height: int)
    requires
        0 <= x < width,
        0 <= y < height,
    ensures
        0 <= y * width + x < width * height,
        0 <= y * width,
{
    assert(y * width >= 0) by (nonlinear_arith)
        requires
            y >= 0,
            width >= 0,
    ;
    assert(y * width + width <= width * height) by (nonlinear_arith)
        requires
            y + 1 <= height,
            width >= 0,
    ;
}

/// Different positions in a grid are different positions in its data.
pub proof fn lemma_flat_injective(x: int, y: int, x2: int, y2: int, width: int)
    requires
        0 <= x < width,
        0 <= x2 < width,
        y * width + x == y2 * width + x2,
    ensures
        x == x2,
        y == y2,
{
    let d = y - y2;
    assert(d * width == y * width - y2 * width) by (nonlinear_arith)
        requires
            d == y - y2,
    ;
    assert(d == 0) by (nonlinear_arith)
        requires
            -width < d * width < width,
            width > 0,
    ;
}

impl<T: Copy> Grid<T> {
    /// The data holds every cell.
    pub open spec fn wf(&self) -> bool {
        self.data@.len() == self.width * self.height
    }

    pub open spec fn at(&self, x: int, y: int) -> T {
        self.data@[y * self.width + x]
    }

    pub fn get(&self, x: usize, y: usize) -> (r: T)
        requires
            self.wf(),
            x < self.width,
            y < self.height,
        ensures
            r == self.at(x as int, y as int),
    {
        proof {
            lemma_flat(x as int, y as int, self.width as int, self.height as int);
        }
        let total: usize = self.data.len();
        self.data[y * self.width + x]
    }

    pub fn set(&mut self, x: usize, y: usize, value: T)
        requires
            old(self).wf(),
            x < old(self).width,
            y < old(self).height,
        ensures
            final(self).wf(),
            final(self).width == old(self).width,
            final(self).height == old(self).height,
            final(self).data@ == old(self).data@.update(y * old(self).width + x, value),
    {
        proof {
            lemma_flat(x as int, y as int, self.width as int, self.height as int);
        }
        let total: usize = self.data.len();
        let i: usize = y * self.width + x;
        self.data.set(i, value);
    }

    /// The whole grid as a part of itself.
    pub fn as_subgrid(&self) -> (r: SharedSubgrid<'_, T>)
        requires
            self.wf(),
        ensures
            r.wf(),
            r.width == self.width,
            r.height == self.height,
            forall|x: int, y: int| #[trigger] r.at(x, y) == self.at(x, y),
    {
        SharedSubgrid { grid: self, left: 0, top: 0, width: self.width, height: self.height }
    }
}

/// A rectangular part of a grid.
pub struct SharedSubgrid<'a, T> {
    pub grid: &'a Grid<T>,
    pub left: usize,
    pub top: usize,
    pub width: usize,
    pub height: usize,
}

impl<'a, T: Copy> SharedSubgrid<'a, T> {
    /// The part lies within the grid.
    pub open spec fn wf(&self) -> bool {
        &&& self.grid.wf()
        &&& self.left + self.width <= self.grid.width
        &&& self.top + self.height <= self.grid.height
    }

    pub open spec fn at(&self, x: int, y: int) -> T {
        self.grid.at(self.left + x, self.top + y)
    }

    pub fn get(&self, x: usize, y: usize) -> (r: T)
        requires
            self.wf(),
            x < self.width,
            y < self.height,
        ensures
            r == self.at(x as int, y as int),
    {
        self.grid.get(self.left + x, self.top + y)
    }

    /// A part of this part.
    pub fn subgrid(self, left: usize, top: usize, width: usize, height: usize) -> (r:
        SharedSubgrid<'a, T>)
        requires
            self.wf(),
            left + width <= self.width,
            top + height <= self.height,
        ensures
            r.wf(),
            r.width == width,
            r.height == height,
            forall|x: int, y: int| #[trigger] r.at(x, y) == self.at(left + x, top + y),
    {
        SharedSubgrid {
            grid: self.grid,
            left: self.left + left,
            top: self.top + top,
            width,
            height,
        }
    }
}

} // verus!
