use vstd::prelude::*;

verus! {

/// A rectangle to be packed: a stable identity and its two side lengths.
///
/// Whether it lies turned is a property of a placement, not of the rectangle.
#[derive(Clone, Copy, Debug, PartialEq, Eq, Structural)]
pub struct Rect {
    pub id: usize,
    pub width: u32,
    pub height: u32,
}

impl Rect {
    /// The area as a mathematical integer.
    pub open spec fn spec_area(self) -> int {
        self.width * self.height
    }

    /// Both sides are at least one unit long.
    pub open spec fn positive(self) -> bool {
        self.width > 0 && self.height > 0
    }

    /// Neither side is longer than `capacity`, so the rectangle fits an empty
    /// bin of that side in either orientation.
    pub open spec fn fits_within(self, capacity: u32) -> bool {
        self.width <= capacity && self.height <= capacity
    }

    /// The rectangle with the given identity and sides.
    pub fn new(id: usize, width: u32, height: u32) -> (rect: Self)
        ensures
            rect == (Rect { id, width, height }),
    {
        Self { id, width, height }
    }

    /// The area, for a rectangle whose area fits 32 bits.
    pub fn area(&self) -> (a: u32)
        requires
            self.spec_area() <= u32::MAX,
        ensures
            a == self.spec_area(),
    {
        self.width * self.height
    }
}

/// The areas of the rectangles of a sequence.
pub open spec fn areas_of(rects: Seq<Rect>) -> Seq<int> {
    Seq::new(rects.len(), |i: int| rects[i].spec_area())
}

/// For each rectangle of a sequence, the length of its longer side.
pub open spec fn longest_sides(rects: Seq<Rect>) -> Seq<int> {
    Seq::new(
        rects.len(),
        |i: int|
            if rects[i].width >= rects[i].height {
                rects[i].width as int
            } else {
                rects[i].height as int
            },
    )
}

/// No two rectangles of the sequence share an identity.
pub open spec fn distinct_ids(rects: Seq<Rect>) -> bool {
    forall|i: int, j: int|
        0 <= i < j < rects.len() ==> (#[trigger] rects[i]).id != (#[trigger] rects[j]).id
}

/// No rectangle of the sequence has a side longer than `capacity`.
pub open spec fn all_fit(rects: Seq<Rect>, capacity: u32) -> bool {
    forall|i: int| 0 <= i < rects.len() ==> (#[trigger] rects[i]).fits_within(capacity)
}

} // verus!
