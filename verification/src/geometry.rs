//! Integer rectangles in logical compositor coordinates.
use vstd::prelude::*;

verus! {

/// A rectangle: top-left corner `(x, y)` and size `w` x `h`.
#[derive(Debug, Clone, Copy, PartialEq, Eq, Structural)]
pub struct Rect {
    pub x: i32,
    pub y: i32,
    pub w: i32,
    pub h: i32,
}

impl Rect {
    /// A rectangle of non-negative size whose far edges fit in `i32`.
    pub open spec fn wf(self) -> bool {
        &&& self.w >= 0
        &&& self.h >= 0
        &&& self.x + self.w <= i32::MAX
        &&& self.y + self.h <= i32::MAX
    }

    /// `inner` lies inside `self`.
    pub open spec fn encloses(self, inner: Rect) -> bool {
        &&& inner.w >= 0
        &&& inner.h >= 0
        &&& self.x <= inner.x
        &&& self.y <= inner.y
        &&& inner.x + inner.w <= self.x + self.w
        &&& inner.y + inner.h <= self.y + self.h
    }

    /// The two rectangles do not overlap (they may share an edge).
    pub open spec fn apart(self, other: Rect) -> bool {
        ||| self.x + self.w <= other.x
        ||| other.x + other.w <= self.x
        ||| self.y + self.h <= other.y
        ||| other.y + other.h <= self.y
    }

    pub open spec fn area(self) -> int {
        self.w * self.h
    }

    pub fn new(x: i32, y: i32, w: i32, h: i32) -> (r: Rect)
        ensures
            r == (Rect { x, y, w, h }),
    {
        Rect { x, y, w, h }
    }
}

/// Every well-formed rectangle encloses itself.
pub proof fn lemma_encloses_refl(r: Rect)
    requires
        r.wf(),
    ensures
        r.encloses(r),
{
}

} // verus!
