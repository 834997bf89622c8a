//! A raster image as a flat slice of RGBA pixels, with row-major
//! index-coordinate conversion.

use vstd::prelude::*;

verus! {

/// An image: a row-major buffer of 4-channel pixels, `w` wide and `h` high.
#[derive(Debug)]
pub struct Picture {
    pub p: Box<[[u8; 4]]>,
    pub w: usize,
    pub h: usize,
}

impl Picture {
    /// Returns the (x, y) coordinates represented by a buffer index.
    pub fn point(&self, i: usize) -> (r: (usize, usize))
        requires
            self.w > 0,
        ensures
            r.0 == i as int % self.w as int,
            r.1 == i as int / self.w as int,
    {
        (i % self.w, i / self.w)
    }

    /// Returns the buffer index represented by (x, y) coordinates.
    pub fn index(&self, x: i32, y: i32) -> (r: usize)
        requires
            x >= 0,
            y >= 0,
            y * self.w + x <= usize::MAX,
        ensures
            r == y * self.w + x,
    {
        y as usize * self.w + x as usize
    }
}

} // verus!
