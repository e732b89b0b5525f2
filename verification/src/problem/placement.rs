use vstd::prelude::*;
use crate::problem::rect::Rect;

verus! {

/// A rectangle laid down with its lower-left corner at `(x, y)`, turned by a
/// quarter when `rotated` is set.
#[derive(Clone, Copy, Debug, PartialEq, Eq, Structural)]
pub struct Placement {
    pub rect: Rect,
    pub x: u32,
    pub y: u32,
    pub rotated: bool,
}

/// The larger of two integers.
pub open spec fn int_max(a: int, b: int) -> int {
    if a >= b { a } else { b }
}

/// The smaller of two integers.
pub open spec fn int_min(a: int, b: int) -> int {
    if a <= b { a } else { b }
}

/// The length of the overlap of the intervals `[a0, a1)` and `[b0, b1)`.
pub open spec fn span_overlap(a0: int, a1: int, b0: int, b1: int) -> int {
    int_max(0, int_min(a1, b1) - int_max(a0, b0))
}

impl Placement {
    /// The extent along x: the rectangle's height when turned, else its width.
    pub open spec fn spec_width(&self) -> u32 {
        if self.rotated { self.rect.height } else { self.rect.width }
    }

    /// The extent along y: the rectangle's width when turned, else its height.
    pub open spec fn spec_height(&self) -> u32 {
        if self.rotated { self.rect.width } else { self.rect.height }
    }

    /// The x coordinate just past the right edge.
    pub open spec fn right(self) -> int {
        self.x + self.spec_width()
    }

    /// The y coordinate just past the top edge.
    pub open spec fn top(self) -> int {
        self.y + self.spec_height()
    }

    /// The two placements share interior points of their bounding boxes.
    /// Boxes that only touch along an edge do not intersect.
    pub open spec fn spec_intersects(self, other: Placement) -> bool {
        &&& self.x < other.right()
        &&& other.x < self.right()
        &&& self.y < other.top()
        &&& other.y < self.top()
    }

    /// The width of the region covered by both placements; zero when they
    /// are disjoint along x.
    pub open spec fn overlap_width(self, other: Placement) -> int {
        span_overlap(self.x as int, self.right(), other.x as int, other.right())
    }

    /// The height of the region covered by both placements; zero when they
    /// are disjoint along y.
    pub open spec fn overlap_height(self, other: Placement) -> int {
        span_overlap(self.y as int, self.top(), other.y as int, other.top())
    }

    /// The area of the region covered by both placements; zero when they are
    /// disjoint.
    pub open spec fn overlap_area(self, other: Placement) -> int {
        self.overlap_width(other) * self.overlap_height(other)
    }

    /// The overlap area fits 32 bits. It does so in particular where each
    /// side of the common region is shorter than 2^16.
    pub open spec fn overlap_fits(self, other: Placement) -> bool {
        ||| self.overlap_width(other) <= 0xFFFF && self.overlap_height(other) <= 0xFFFF
        ||| self.overlap_area(other) <= u32::MAX
    }

    /// The extent along x.
    #[verifier::when_used_as_spec(spec_width)]
    pub fn width(&self) -> (w: u32)
        ensures
            w == self.spec_width(),
    {
        if self.rotated { self.rect.height } else { self.rect.width }
    }

    /// The extent along y.
    #[verifier::when_used_as_spec(spec_height)]
    pub fn height(&self) -> (h: u32)
        ensures
            h == self.spec_height(),
    {
        if self.rotated { self.rect.width } else { self.rect.height }
    }

    /// Whether the two placements share interior points. Placements that
    /// only touch along an edge do not intersect.
    pub fn intersects(&self, other: &Placement) -> (hit: bool)
        ensures
            hit == self.spec_intersects(*other),
    {
        let r1_x2: u64 = self.x as u64 + self.width() as u64;
        let r1_y2: u64 = self.y as u64 + self.height() as u64;
        let r2_x2: u64 = other.x as u64 + other.width() as u64;
        let r2_y2: u64 = other.y as u64 + other.height() as u64;
        !(r1_x2 <= other.x as u64 || r2_x2 <= self.x as u64 || r1_y2 <= other.y as u64 || r2_y2
            <= self.y as u64)
    }

    /// The area of the region covered by both placements, in a width that
    /// holds it for every pair of placements.
    pub fn overlap(&self, other: &Placement) -> (area: u64)
        ensures
            area == self.overlap_area(*other),
    {
        let x_overlap_start: u64 = if self.x >= other.x { self.x as u64 } else { other.x as u64 };
        let y_overlap_start: u64 = if self.y >= other.y { self.y as u64 } else { other.y as u64 };
        let r1_x2: u64 = self.x as u64 + self.width() as u64;
        let r2_x2: u64 = other.x as u64 + other.width() as u64;
        let r1_y2: u64 = self.y as u64 + self.height() as u64;
        let r2_y2: u64 = other.y as u64 + other.height() as u64;
        let x_overlap_end: u64 = if r1_x2 <= r2_x2 { r1_x2 } else { r2_x2 };
        let y_overlap_end: u64 = if r1_y2 <= r2_y2 { r1_y2 } else { r2_y2 };
        let ghost across = self.overlap_width(*other);
        let ghost up = self.overlap_height(*other);
        if x_overlap_start < x_overlap_end && y_overlap_start < y_overlap_end {
            let width: u64 = x_overlap_end - x_overlap_start;
            let height: u64 = y_overlap_end - y_overlap_start;
            proof {
                lemma_overlap_bounds(*self, *other);
                assert(width * height <= 0xFFFF_FFFF * 0xFFFF_FFFF) by (nonlinear_arith)
                    requires
                        0 <= width <= 0xFFFF_FFFF,
                        0 <= height <= 0xFFFF_FFFF,
                ;
            }
            width * height
        } else {
            proof {
                assert(across * up == 0) by (nonlinear_arith)
                    requires
                        across == 0 || up == 0,
                ;
            }
            0
        }
    }

    /// The area of the region covered by both placements, where it fits 32
    /// bits; zero when they are disjoint.
    pub fn intersection_area(&self, other: &Placement) -> (area: u32)
        requires
            self.overlap_fits(*other),
        ensures
            area == self.overlap_area(*other),
            area == other.overlap_area(*self),
            self.rect.positive() && other.rect.positive() ==> (area == 0 <==> !self.spec_intersects(
                *other,
            )),
    {
        proof {
            lemma_overlap_fits(*self, *other);
            lemma_overlap_area_symmetric_and_zero_iff_disjoint(*self, *other);
        }
        self.overlap(other) as u32
    }
}

/// An overlap area fits 32 bits exactly if it is at most the largest 32-bit
/// number.
pub proof fn lemma_overlap_fits(a: Placement, b: Placement)
    ensures
        a.overlap_fits(b) <==> a.overlap_area(b) <= u32::MAX,
{
    let across = a.overlap_width(b);
    let up = a.overlap_height(b);
    assert(across <= 0xFFFF && up <= 0xFFFF ==> across * up <= 0xFFFF_FFFF) by (nonlinear_arith)
        requires
            0 <= across,
            0 <= up,
    ;
}

/// Each side of the overlap region is no longer than the matching side of
/// either placement, and the region is no larger than either rectangle.
pub proof fn lemma_overlap_bounds(a: Placement, b: Placement)
    ensures
        0 <= a.overlap_width(b) <= a.spec_width(),
        0 <= a.overlap_width(b) <= b.spec_width(),
        0 <= a.overlap_height(b) <= a.spec_height(),
        0 <= a.overlap_height(b) <= b.spec_height(),
        0 <= a.overlap_area(b) <= a.rect.spec_area(),
        0 <= a.overlap_area(b) <= b.rect.spec_area(),
{
    let ow = a.overlap_width(b);
    let oh = a.overlap_height(b);
    let aw = a.spec_width() as int;
    let ah = a.spec_height() as int;
    let bw = b.spec_width() as int;
    let bh = b.spec_height() as int;
    assert(0 <= ow * oh <= aw * ah && ow * oh <= bw * bh) by (nonlinear_arith)
        requires
            0 <= ow <= aw,
            ow <= bw,
            0 <= oh <= ah,
            oh <= bh,
    ;
    assert(aw * ah == a.rect.width * a.rect.height) by (nonlinear_arith)
        requires
            (aw == a.rect.width && ah == a.rect.height) || (aw == a.rect.height && ah
                == a.rect.width),
    ;
    assert(bw * bh == b.rect.width * b.rect.height) by (nonlinear_arith)
        requires
            (bw == b.rect.width && bh == b.rect.height) || (bw == b.rect.height && bh
                == b.rect.width),
    ;
}

/// The overlap area does not depend on the order of the two placements, and
/// neither does whether they intersect. Placements that do not intersect
/// have no overlap; for rectangles with positive sides the overlap area is
/// zero exactly when the placements do not intersect.
pub proof fn lemma_overlap_area_symmetric_and_zero_iff_disjoint(a: Placement, b: Placement)
    ensures
        a.overlap_area(b) == b.overlap_area(a),
        a.spec_intersects(b) == b.spec_intersects(a),
        !a.spec_intersects(b) ==> a.overlap_area(b) == 0,
        a.rect.positive() && b.rect.positive() ==> (a.overlap_area(b) == 0 <==> !a.spec_intersects(
            b,
        )),
{
    let ow = a.overlap_width(b);
    let oh = a.overlap_height(b);
    assert(ow == b.overlap_width(a));
    assert(oh == b.overlap_height(a));
    assert((ow * oh == 0) <==> (ow == 0 || oh == 0)) by (nonlinear_arith);
}

} // verus!
