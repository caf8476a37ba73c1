//! Axis-aligned integer rectangle with a half-open membership test.

use vstd::prelude::*;

verus! {

/// An axis-aligned rectangle: corner `(x, y)`, width `w`, height `h`.
/// Membership is half-open: `(x, y)` is inside, `(x + w, y + h)` is not.
#[derive(Copy, Clone, Debug, PartialEq, Eq, Structural)]
pub struct Rect {
    pub x: i32,
    pub y: i32,
    pub w: i32,
    pub h: i32,
}

impl Rect {
    /// Half-open membership of a point, stated over unbounded integers.
    pub open spec fn spec_contains(self, px: int, py: int) -> bool {
        &&& px >= self.x
        &&& py >= self.y
        &&& px < self.x + self.w
        &&& py < self.y + self.h
    }

    pub fn new(x: i32, y: i32, w: i32, h: i32) -> (r: Self)
        ensures
            r == (Rect { x, y, w, h }),
    {
        Self { x, y, w, h }
    }

    /// Builds the rectangle spanning `[x1, x2) x [y1, y2)`.
    pub fn from_bounds(x1: i32, y1: i32, x2: i32, y2: i32) -> (r: Self)
        requires
            x2 - x1 <= i32::MAX,
            y2 - y1 <= i32::MAX,
            x2 - x1 >= i32::MIN,
            y2 - y1 >= i32::MIN,
        ensures
            r == (Rect { x: x1, y: y1, w: (x2 - x1) as i32, h: (y2 - y1) as i32 }),
    {
        Self::new(x1, y1, x2 - x1, y2 - y1)
    }

    /// Total membership test; wide arithmetic keeps it free of overflow
    /// for every rectangle and every point.
    pub fn contains(&self, x: i32, y: i32) -> (r: bool)
        ensures
            r == self.spec_contains(x as int, y as int),
    {
        x as i64 >= self.x as i64 && y as i64 >= self.y as i64
            && (x as i64) < self.x as i64 + self.w as i64
            && (y as i64) < self.y as i64 + self.h as i64
    }
}

} // verus!
