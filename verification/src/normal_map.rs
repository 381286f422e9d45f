//! Height maps: one byte per texel.

use crate::texture::{wrap_coordinate, wrapped, Wrap};
use vstd::prelude::*;

verus! {

/// A height map, row by row, the top row first.
pub struct HeightMap {
    width: usize,
    height: usize,
    data: Vec<u8>,
    wrap: Wrap,
}

impl HeightMap {
    pub closed spec fn columns(&self) -> int {
        self.width as int
    }

    pub closed spec fn rows(&self) -> int {
        self.height as int
    }

    /// The heights, row by row.
    pub closed spec fn heights(&self) -> Seq<u8> {
        self.data@
    }

    pub closed spec fn wrapping(&self) -> Wrap {
        self.wrap
    }

    /// There is one height per texel.
    pub open spec fn wf(&self) -> bool {
        self.heights().len() == self.columns() * self.rows()
    }

    /// A height map of these heights.
    pub fn from_u8(width: usize, height: usize, data: Vec<u8>, wrap: Wrap) -> (r: Self)
        requires
            data@.len() == width * height,
        ensures
            r.wf(),
            r.columns() == width,
            r.rows() == height,
            r.heights() == data@,
            r.wrapping() == wrap,
    {
        HeightMap { width, height, data, wrap }
    }

    /// Width and height in texels.
    pub fn size(&self) -> (r: (usize, usize))
        ensures
            r.0 == self.columns(),
            r.1 == self.rows(),
    {
        (self.width, self.height)
    }

    /// The height at a texel, wherever it lies.
    pub fn texel(&self, x: i64, y: i64) -> (r: u8)
        requires
            self.wf(),
            1 <= self.columns() <= i64::MAX,
            1 <= self.rows() <= i64::MAX,
        ensures
            r == self.heights()[wrapped(self.wrapping(), y as int, self.rows()) * self.columns()
                + wrapped(self.wrapping(), x as int, self.columns())],
    {
        let tx: usize = wrap_coordinate(self.wrap, x, self.width);
        let ty: usize = wrap_coordinate(self.wrap, y, self.height);
        let n: usize = self.data.len();
        proof {
            let (w, h, a, b) = (self.width as int, self.height as int, tx as int, ty as int);
            assert(0 <= b * w && b * w + a < w * h) by (nonlinear_arith)
                requires
                    0 <= a < w,
                    0 <= b < h,
            ;
        }
        self.data[ty * self.width + tx]
    }
}

} // verus!
