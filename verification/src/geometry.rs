//! Rectangles of terminal cells.
use vstd::prelude::*;

verus! {

/// `a - b`, or 0 where `b` is larger.
pub open spec fn minus(a: int, b: int) -> int {
    if a >= b {
        a - b
    } else {
        0
    }
}

/// `a`, or the largest `u16` where `a` is larger.
pub open spec fn capped(a: int) -> int {
    if a > u16::MAX {
        u16::MAX as int
    } else {
        a
    }
}

#[derive(Clone, Copy, Debug, PartialEq, Eq, Structural)]
pub struct Rect {
    pub x: u16,
    pub y: u16,
    pub width: u16,
    pub height: u16,
}

impl Rect {
    pub fn new(x: u16, y: u16, width: u16, height: u16) -> (r: Rect)
        ensures
            r == (Rect { x, y, width, height }),
    {
        Rect { x, y, width, height }
    }

    /// The column behind the last one.
    pub fn right(&self) -> (r: u16)
        ensures
            r == capped(self.x + self.width),
            self.x + self.width <= 65535 ==> r == self.x + self.width,
            self.x + self.width > 65535 ==> r == 65535,
    {
        self.x.saturating_add(self.width)
    }

    /// The row below the last one.
    pub fn bottom(&self) -> (r: u16)
        ensures
            r == capped(self.y + self.height),
            self.y + self.height <= 65535 ==> r == self.y + self.height,
            self.y + self.height > 65535 ==> r == 65535,
    {
        self.y.saturating_add(self.height)
    }

    /// The rectangle without its last `width` columns.
    pub open spec fn clipped_right(self, width: u16) -> Rect {
        Rect { width: minus(self.width as int, width as int) as u16, ..self }
    }

    /// The rectangle without its last `width` columns.
    pub fn clip_right(self, width: u16) -> (r: Rect)
        ensures
            r == self.clipped_right(width),
            r.x == self.x && r.y == self.y && r.height == self.height,
            width <= self.width ==> r.width + width == self.width,
            width > self.width ==> r.width == 0,
    {
        Rect { width: self.width.saturating_sub(width), ..self }
    }
}

} // verus!
