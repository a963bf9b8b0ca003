//! The rectangle value type used as a slicing specification.

use vstd::prelude::*;

verus! {

/// A sub-region of a source image, in source-image pixel coordinates.
///
/// `x` and `y` locate the top-left corner; `width` and `height` give the
/// extent. A rectangle is only meaningful against a source whose extent
/// contains it (see [`Rect::in_bounds`]); consumers validate bounds before
/// slicing.
#[derive(Copy, Clone, Debug, Eq, PartialEq, Structural)]
pub struct Rect {
    pub x: usize,
    pub y: usize,
    pub width: usize,
    pub height: usize,
}

impl Rect {
    pub fn new(x: usize, y: usize, width: usize, height: usize) -> (r: Rect)
        ensures
            r == (Rect { x, y, width, height }),
    {
        Rect { x, y, width, height }
    }

    /// The rectangle lies entirely within a source of the given pixel extent.
    pub open spec fn in_bounds(self, source_width: nat, source_height: nat) -> bool {
        &&& self.x + self.width <= source_width
        &&& self.y + self.height <= source_height
    }
}

} // verus!
