//! Plain integer geometry carried between the GUI layer, the command queue
//! and the windowing layer.  Positions are outer positions in physical
//! pixels; sizes are inner sizes in physical pixels.

use vstd::prelude::*;

verus! {

/// An outer position of a window, in physical pixels.
#[derive(Clone, Copy, Debug, PartialEq, Eq, Structural)]
pub struct Pos {
    pub x: i32,
    pub y: i32,
}

/// An inner size of a window, in physical pixels.
#[derive(Clone, Copy, Debug, PartialEq, Eq, Structural)]
pub struct Size {
    pub width: u32,
    pub height: u32,
}

impl Pos {
    pub fn new(x: i32, y: i32) -> (r: Pos)
        ensures
            r == (Pos { x, y }),
    {
        Pos { x, y }
    }
}

impl Size {
    pub fn new(width: u32, height: u32) -> (r: Size)
        ensures
            r == (Size { width, height }),
    {
        Size { width, height }
    }

    /// A zero-area size; a window this size is treated as minimized by the
    /// host event loop.
    pub open spec fn is_zero_area(self) -> bool {
        self.width == 0 || self.height == 0
    }
}

} // verus!
