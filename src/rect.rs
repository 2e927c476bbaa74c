//! Axis-aligned rectangles in whole pixels.

use vstd::prelude::*;

verus! {

/// An axis-aligned rectangle covering the pixels `left <= x < left + width`
/// and `top <= y < top + height`.
#[derive(Debug, Clone, Copy, PartialEq, Eq, Structural)]
pub struct Rect {
    pub left: i64,
    pub top: i64,
    pub width: u32,
    pub height: u32,
}

pub open spec fn max_int(a: int, b: int) -> int {
    if a >= b { a } else { b }
}

pub open spec fn min_int(a: int, b: int) -> int {
    if a <= b { a } else { b }
}

impl Rect {
    pub open spec fn spec_right(self) -> int {
        self.left + self.width
    }

    pub open spec fn spec_bottom(self) -> int {
        self.top + self.height
    }

    /// Whether the pixel at `(x, y)` lies inside the rectangle.
    pub open spec fn contains(self, x: int, y: int) -> bool {
        self.left <= x < self.spec_right() && self.top <= y < self.spec_bottom()
    }

    /// The overlap of two rectangles, or `None` when it has no area.
    pub open spec fn spec_intersect(self, other: Rect) -> Option<Rect> {
        let l = max_int(self.left as int, other.left as int);
        let r = min_int(self.spec_right(), other.spec_right());
        let t = max_int(self.top as int, other.top as int);
        let b = min_int(self.spec_bottom(), other.spec_bottom());
        if l < r && t < b {
            Some(Rect { left: l as i64, top: t as i64, width: (r - l) as u32, height: (b - t) as u32 })
        } else {
            None
        }
    }

    pub fn new(left: i64, top: i64, width: u32, height: u32) -> (r: Rect)
        ensures
            r == (Rect { left, top, width, height }),
    {
        Rect { left, top, width, height }
    }

    /// The rectangle covering exactly the pixels that lie in both `self` and
    /// `other`; rectangles that only share an edge do not intersect.
    pub fn intersect(&self, other: &Rect) -> (r: Option<Rect>)
        ensures
            r == self.spec_intersect(*other),
    {
        let inter_left = if self.left >= other.left { self.left } else { other.left };
        let inter_right = if self.right() <= other.right() { self.right() } else { other.right() };
        let inter_top = if self.top >= other.top { self.top } else { other.top };
        let inter_bottom = if self.bottom() <= other.bottom() { self.bottom() } else { other.bottom() };
        if (inter_left as i128) < inter_right && (inter_top as i128) < inter_bottom {
            Some(Rect::new(
                inter_left,
                inter_top,
                (inter_right - inter_left as i128) as u32,
                (inter_bottom - inter_top as i128) as u32,
            ))
        } else {
            None
        }
    }

    pub fn left(&self) -> (r: i64)
        ensures
            r == self.left,
    {
        self.left
    }

    pub fn right(&self) -> (r: i128)
        ensures
            r == self.spec_right(),
    {
        self.left as i128 + self.width as i128
    }

    pub fn top(&self) -> (r: i64)
        ensures
            r == self.top,
    {
        self.top
    }

    pub fn bottom(&self) -> (r: i128)
        ensures
            r == self.spec_bottom(),
    {
        self.top as i128 + self.height as i128
    }

    pub fn width(&self) -> (r: u32)
        ensures
            r == self.width,
    {
        self.width
    }

    pub fn height(&self) -> (r: u32)
        ensures
            r == self.height,
    {
        self.height
    }
}

/// Intersection does not depend on the order of its operands.
pub proof fn lemma_intersect_commutative(a: Rect, b: Rect)
    ensures
        a.spec_intersect(b) == b.spec_intersect(a),
{
}

/// A pixel lies in the intersection exactly when it lies in both
/// rectangles, and the intersection is `None` exactly when no pixel lies in
/// both (so rectangles that merely touch along an edge do not intersect).
pub proof fn lemma_intersect_pixels(a: Rect, b: Rect)
    ensures
        a.spec_intersect(b) is None <==> !exists|x: int, y: int| a.contains(x, y) && b.contains(x, y),
        forall|x: int, y: int|
            #![trigger a.spec_intersect(b).unwrap().contains(x, y)]
            #![trigger a.contains(x, y), b.contains(x, y)]
            a.spec_intersect(b) is Some ==> (a.spec_intersect(b).unwrap().contains(x, y) <==> (
            a.contains(x, y) && b.contains(x, y))),
{
    if let Some(r) = a.spec_intersect(b) {
        assert(a.contains(r.left as int, r.top as int) && b.contains(r.left as int, r.top as int));
    }
}

} // verus!
