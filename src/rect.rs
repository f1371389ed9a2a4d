//! A rectangle with area and perimeter.

use vstd::prelude::*;

verus! {

/// An axis-aligned rectangle given by its side lengths.
pub struct Rect {
    pub width: usize,
    pub height: usize,
}

impl Rect {
    pub fn new(width: usize, height: usize) -> (r: Rect)
        ensures
            r.width == width,
            r.height == height,
    {
        Rect { width, height }
    }

    /// The area, `width * height`.
    pub fn area(&self) -> (r: usize)
        requires
            self.width * self.height <= usize::MAX,
        ensures
            r == self.width * self.height,
    {
        self.width * self.height
    }

    /// The perimeter, `2 * width + 2 * height`.
    pub fn perim(&self) -> (r: usize)
        requires
            2 * self.width + 2 * self.height <= usize::MAX,
        ensures
            r == 2 * self.width + 2 * self.height,
    {
        2 * self.width + 2 * self.height
    }
}

} // verus!
