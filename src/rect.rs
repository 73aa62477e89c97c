use vstd::prelude::*;

verus! {

/// Integer quotient of `a` by two, rounded toward zero (as Rust's `/` does).
pub open spec fn half_toward_zero(a: int) -> int {
    if a >= 0 {
        a / 2
    } else {
        -((-a) / 2)
    }
}

/// An axis-aligned rectangle; `x2` and `y2` are its far edges.
#[derive(Clone, Copy, Debug, PartialEq, Eq, Structural)]
pub struct Rect {
    pub x1: i32,
    pub y1: i32,
    pub x2: i32,
    pub y2: i32,
}

impl Rect {
    /// Whether two rectangles overlap, open at their far edges: sharing only an
    /// edge is no overlap.
    pub open spec fn overlaps(self, other: Rect) -> bool {
        self.x1 < other.x2 && self.x2 > other.x1 && self.y1 < other.y2 && self.y2 > other.y1
    }

    pub open spec fn center_spec(self) -> (int, int) {
        (half_toward_zero(self.x1 + self.x2), half_toward_zero(self.y1 + self.y2))
    }

    /// The rectangle at `(x, y)` of width `w` and height `h`.
    pub fn new(x: i32, y: i32, w: i32, h: i32) -> (r: Rect)
        requires
            i32::MIN <= x + w <= i32::MAX,
            i32::MIN <= y + h <= i32::MAX,
        ensures
            r.x1 == x,
            r.y1 == y,
            r.x2 == x + w,
            r.y2 == y + h,
    {
        Rect { x1: x, y1: y, x2: x + w, y2: y + h }
    }

    /// Whether this rectangle overlaps `other`.
    pub fn intersect(&self, other: &Rect) -> (r: bool)
        ensures
            r == self.overlaps(*other),
    {
        self.x1 < other.x2 && self.x2 > other.x1 && self.y1 < other.y2 && self.y2 > other.y1
    }

    /// The midpoint, each coordinate halved toward zero.
    pub fn center(&self) -> (r: (i32, i32))
        ensures
            r.0 == self.center_spec().0,
            r.1 == self.center_spec().1,
    {
        let x: i64 = (self.x1 as i64 + self.x2 as i64) / 2;
        let y: i64 = (self.y1 as i64 + self.y2 as i64) / 2;
        (x as i32, y as i32)
    }
}

/// Overlap is symmetric.
pub proof fn lemma_overlap_symmetric(a: Rect, b: Rect)
    ensures
        a.overlaps(b) == b.overlaps(a),
{
}

} // verus!
