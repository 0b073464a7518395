//! Small geometry helpers shared by the screen and console collaborators.

use vstd::prelude::*;

verus! {

/// A position on the screen, in pixels: column, then row.
#[derive(Default, Debug, Copy, Clone, PartialEq, Eq, Structural)]
pub struct Point(pub usize, pub usize);

impl Point {
    /// The origin.
    pub fn zero() -> (p: Point)
        ensures
            p == Point(0usize, 0usize),
    {
        Point(0, 0)
    }
}

/// A two-dimensional extent.
#[derive(Default, Debug, Copy, Clone, PartialEq, Eq, Structural)]
pub struct Vector(pub u32, pub u32);

} // verus!
