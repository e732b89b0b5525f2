use vstd::prelude::*;
use crate::problem::rect::{all_fit, distinct_ids, Rect};

verus! {

/// A packing problem: the side of the square bins and the rectangles to pack.
#[derive(Debug)]
pub struct Instance {
    pub box_size: u32,
    pub rects: Vec<Rect>,
}

/// The mathematical content of an instance.
pub struct InstanceView {
    pub box_size: u32,
    pub rects: Seq<Rect>,
}

impl View for Instance {
    type V = InstanceView;

    open spec fn view(&self) -> InstanceView {
        InstanceView { box_size: self.box_size, rects: self.rects@ }
    }
}

impl InstanceView {
    /// No rectangle has a side longer than the bins.
    pub open spec fn fits(self) -> bool {
        all_fit(self.rects, self.box_size)
    }

    /// No two rectangles share an identity.
    pub open spec fn distinct_ids(self) -> bool {
        distinct_ids(self.rects)
    }

    /// Every rectangle fits a bin and is told apart from the others by its
    /// identity.
    pub open spec fn well_formed(self) -> bool {
        self.fits() && self.distinct_ids()
    }
}

impl Instance {
    /// An instance of bins of side `box_size` and the given rectangles, none
    /// of which may have a side longer than `box_size`.
    pub fn new(box_size: u32, rects: Vec<Rect>) -> (instance: Self)
        requires
            all_fit(rects@, box_size),
        ensures
            instance@ == (InstanceView { box_size, rects: rects@ }),
            instance@.fits(),
    {
        Self { box_size, rects }
    }
}

impl Instance {
    /// Whether every rectangle fits the bins and no two rectangles share an
    /// identity.
    pub fn is_well_formed(&self) -> (well_formed: bool)
        ensures
            well_formed == self@.well_formed(),
    {
        let mut j: usize = 0;
        while j < self.rects.len()
            invariant
                j <= self.rects.len(),
                forall|k: int| 0 <= k < j ==> (#[trigger] self@.rects[k]).fits_within(self.box_size),
                forall|a: int, b: int|
                    0 <= a < b < j ==> (#[trigger] self@.rects[a]).id != (
                    #[trigger] self@.rects[b]).id,
            decreases self.rects.len() - j,
        {
            let rect = self.rects[j];
            if rect.width > self.box_size || rect.height > self.box_size {
                assert(!self@.rects[j as int].fits_within(self.box_size));
                return false;
            }
            let mut i: usize = 0;
            while i < j
                invariant
                    i <= j,
                    j < self.rects.len(),
                    rect == self@.rects[j as int],
                    forall|a: int| 0 <= a < i ==> (#[trigger] self@.rects[a]).id != rect.id,
                decreases j - i,
            {
                if self.rects[i].id == rect.id {
                    assert(self@.rects[i as int].id == self@.rects[j as int].id);
                    return false;
                }
                i += 1;
            }
            j += 1;
        }
        true
    }
}

impl Clone for Instance {
    fn clone(&self) -> (copy: Self)
        ensures
            copy@ == self@,
    {
        Instance { box_size: self.box_size, rects: self.rects.clone() }
    }
}

} // verus!
