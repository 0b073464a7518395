//! The screen as the frame-buffer consumer sees it: dimensions, scanline
//! stride and the frame buffer's base address, held as a plain integer.
//!
//! Writing pixels dereferences the frame-buffer address and so lives with
//! the unverified drawing code; the address arithmetic that locates a
//! pixel is verified here.

use vstd::prelude::*;
use crate::math::Point;

verus! {

/// Frame-buffer geometry: width and height in pixels, base address `fb`
/// and scanline stride `s` in bytes.
#[derive(Default, Debug, Copy, Clone)]
pub struct Screen {
    pub w: usize,
    pub h: usize,
    pub fb: usize,
    pub s: usize,
}

impl Screen {
    pub fn new(w: usize, h: usize, s: usize, fb: usize) -> (r: Screen)
        ensures
            r.w == w,
            r.h == h,
            r.s == s,
            r.fb == fb,
    {
        Screen { w, h, s, fb }
    }

    /// Address of the four-byte pixel at `p`: one scanline per row, four
    /// bytes per pixel within the row.
    pub fn pixel_location(&self, p: Point) -> (loc: usize)
        requires
            self.fb + self.s * p.1 + p.0 * 4 <= usize::MAX,
        ensures
            loc == self.fb + self.s * p.1 + p.0 * 4,
    {
        self.fb + (self.s * p.1) + (p.0 * 4)
    }
}

} // verus!
