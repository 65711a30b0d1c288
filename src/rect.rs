use vstd::prelude::*;

verus! {

/// An axis-aligned rectangle of cells, from `(x, y)` with width `w` and height `h`.
pub struct URect {
    pub x: usize,
    pub y: usize,
    pub w: usize,
    pub h: usize,
}

/// The rectangles' closed extents `[x, x + w]` and `[y, y + h]` meet: touching
/// edges count as overlapping, so rooms that do not overlap keep a wall between them.
pub open spec fn rects_overlap(a: URect, b: URect) -> bool {
    a.x <= b.x + b.w && b.x <= a.x + a.w && a.y <= b.y + b.h && b.y <= a.y + a.h
}

/// The rectangle fits in usize arithmetic.
pub open spec fn rect_fits(r: URect) -> bool {
    r.x + r.w <= usize::MAX && r.y + r.h <= usize::MAX
}

/// The cell `(cx, cy)` lies in the rectangle.
pub open spec fn rect_contains(r: URect, cx: int, cy: int) -> bool {
    r.x <= cx < r.x + r.w && r.y <= cy < r.y + r.h
}

impl URect {
    pub fn new(x: usize, y: usize, w: usize, h: usize) -> (r: Self)
        ensures
            r == (URect { x, y, w, h }),
    {
        URect { x, y, w, h }
    }

    pub fn overlaps(&self, other: &Self) -> (r: bool)
        requires
            rect_fits(*self),
            rect_fits(*other),
        ensures
            r == rects_overlap(*self, *other),
    {
        if self.x > other.x + other.w || self.x + self.w < other.x {
            return false;
        }
        if self.y > other.y + other.h || self.y + self.h < other.y {
            return false;
        }
        true
    }
}

/// Rectangles that do not overlap share no cell.
pub proof fn lemma_apart_rects_share_no_cell(a: URect, b: URect, cx: int, cy: int)
    requires
        !rects_overlap(a, b),
    ensures
        !(rect_contains(a, cx, cy) && rect_contains(b, cx, cy)),
{
}

} // verus!
