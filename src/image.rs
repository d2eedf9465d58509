//! Per-baseline image buffers: `NUM_PLANES` planes of `height` rows, each row
//! padded to `stride` cells, stored plane after plane, row after row.
use vstd::prelude::*;
use crate::geometry::{spec_stride, stride, lemma_div_mod_unique, NUM_PLANES};

verus! {

/// Position of cell (`row`, `col`) of plane `plane` in the storage of an image
/// buffer with `height` rows of `stride` cells.
pub open spec fn cell_index(height: int, stride: int, plane: int, row: int, col: int) -> int {
    (plane * height + row) * stride + col
}

/// A cell position lies inside the buffer, and decodes back into its plane,
/// row and column.
pub proof fn lemma_cell_index(height: int, stride: int, plane: int, row: int, col: int)
    requires
        0 <= plane,
        0 <= row < height,
        0 <= col < stride,
    ensures
        0 <= cell_index(height, stride, plane, row, col) < (plane + 1) * height * stride,
        0 <= plane * height <= plane * height + row <= (plane * height + row) * stride
            <= cell_index(height, stride, plane, row, col),
        cell_index(height, stride, plane, row, col) / stride == plane * height + row,
        cell_index(height, stride, plane, row, col) % stride == col,
        (plane * height + row) / height == plane,
        (plane * height + row) % height == row,
{
    let x = cell_index(height, stride, plane, row, col);
    lemma_div_mod_unique(x, stride, plane * height + row, col);
    lemma_div_mod_unique(plane * height + row, height, plane, row);
    assert(0 <= plane * height) by (nonlinear_arith)
        requires 0 <= plane, 0 <= row < height;
    let y = plane * height + row;
    assert(y * stride <= x) by (nonlinear_arith)
        requires x == y * stride + col, 0 <= col;
    assert(y <= y * stride) by (nonlinear_arith)
        requires 0 <= y, 1 <= stride;
    assert(x < (y + 1) * stride) by (nonlinear_arith)
        requires x == y * stride + col, col < stride;
    assert(y + 1 <= (plane + 1) * height) by (nonlinear_arith)
        requires y == plane * height + row, row < height;
    assert((y + 1) * stride <= (plane + 1) * height * stride) by (nonlinear_arith)
        requires y + 1 <= (plane + 1) * height, 0 <= stride;
    assert(0 <= x) by (nonlinear_arith)
        requires x == y * stride + col, 0 <= y, 0 <= col, 0 <= stride;
}

/// One baseline's visibilities as `NUM_PLANES` time-by-frequency planes.
pub struct ImageBuffer<T> {
    /// Columns that hold data: one per timestep.
    pub width: usize,
    /// Rows: one per fine channel of every coarse channel.
    pub height: usize,
    /// Cells per row, padding included.
    pub stride: usize,
    /// The planes, one after another.
    pub data: Vec<T>,
}

impl<T: Copy> ImageBuffer<T> {
    pub open spec fn wf(&self) -> bool {
        &&& 1 <= self.width
        &&& self.width + 7 <= usize::MAX
        &&& self.stride == spec_stride(self.width as int)
        &&& self.data@.len() == NUM_PLANES * (self.height * self.stride)
    }

    /// The value of cell (`row`, `col`) of plane `plane`.
    pub open spec fn spec_value(&self, plane: int, row: int, col: int) -> T {
        self.data@[cell_index(self.height as int, self.stride as int, plane, row, col)]
    }

    /// A buffer of `width` columns and `height` rows with every cell, padding
    /// included, set to `fill`.
    pub fn new(width: usize, height: usize, fill: T) -> (r: ImageBuffer<T>)
        requires
            1 <= width <= usize::MAX - 7,
            NUM_PLANES * (height * spec_stride(width as int)) <= usize::MAX,
        ensures
            r.wf(),
            r.width == width,
            r.height == height,
            forall|i: int| 0 <= i < r.data@.len() ==> r.data@[i] == fill,
    {
        let s = stride(width);
        let len = NUM_PLANES * (height * s);
        let mut data: Vec<T> = Vec::new();
        let mut i: usize = 0;
        while i < len
            invariant
                i <= len,
                data@.len() == i,
                forall|j: int| 0 <= j < i ==> data@[j] == fill,
            decreases len - i,
        {
            data.push(fill);
            i += 1;
        }
        ImageBuffer { width, height, stride: s, data }
    }

    /// The value of cell (`row`, `col`) of plane `plane`; columns from
    /// `width` up to `stride` are padding.
    pub fn value(&self, plane: usize, row: usize, col: usize) -> (r: T)
        requires
            self.wf(),
            plane < NUM_PLANES,
            row < self.height,
            col < self.stride,
        ensures
            r == self.spec_value(plane as int, row as int, col as int),
    {
        let len = self.data.len();
        proof {
            lemma_cell_index(self.height as int, self.stride as int, plane as int, row as int, col as int);
            assert((plane + 1) * self.height * self.stride <= NUM_PLANES * (self.height * self.stride))
                by (nonlinear_arith) requires plane < NUM_PLANES, self.height * self.stride >= 0;
        }
        self.data[(plane * self.height + row) * self.stride + col]
    }

    /// Sets cell (`row`, `col`) of plane `plane` and leaves every other cell
    /// as it was.
    pub fn set(&mut self, plane: usize, row: usize, col: usize, value: T)
        requires
            old(self).wf(),
            plane < NUM_PLANES,
            row < old(self).height,
            col < old(self).stride,
        ensures
            final(self).wf(),
            final(self).width == old(self).width,
            final(self).height == old(self).height,
            final(self).data@ == old(self).data@.update(
                cell_index(old(self).height as int, old(self).stride as int, plane as int, row as int, col as int),
                value,
            ),
    {
        let len = self.data.len();
        proof {
            lemma_cell_index(self.height as int, self.stride as int, plane as int, row as int, col as int);
            assert((plane + 1) * self.height * self.stride <= NUM_PLANES * (self.height * self.stride))
                by (nonlinear_arith) requires plane < NUM_PLANES, self.height * self.stride >= 0;
        }
        let i = (plane * self.height + row) * self.stride + col;
        self.data.set(i, value);
    }
}

} // verus!