use vstd::prelude::*;
use crate::problem::bin::{BinView, BoxBin};
use crate::problem::placement::{int_max, lemma_overlap_bounds, Placement};
use crate::problem::rect::Rect;

verus! {

/// The overlap of `a` and `b` is at most `percent` hundredths of the area of
/// the larger of the two rectangles.
pub open spec fn within_tolerance(a: Placement, b: Placement, percent: u32) -> bool {
    a.overlap_area(b) * 100 <= percent * int_max(a.rect.spec_area(), b.rect.spec_area())
}

impl BinView {
    /// `p` lies inside the bin and overlaps each placement in it by no more
    /// than the tolerance allows: 0 allows no overlap, 100 any.
    pub open spec fn tolerates(self, p: Placement, percent: u32) -> bool {
        &&& self.holds(p)
        &&& forall|i: int|
            0 <= i < self.placements.len() ==> within_tolerance(
                p,
                #[trigger] self.placements[i],
                percent,
            )
    }

    /// The first position among `anchors` at which the bin tolerates `rect`,
    /// trying each anchor upright before turned.
    pub open spec fn first_tolerated(
        self,
        rect: Rect,
        anchors: Seq<(u32, u32)>,
        percent: u32,
    ) -> Option<(u32, u32, bool)>
        decreases anchors.len(),
    {
        if anchors.len() == 0 {
            None
        } else {
            let x = anchors[0].0;
            let y = anchors[0].1;
            if self.tolerates(Placement { rect, x, y, rotated: false }, percent) {
                Some((x, y, false))
            } else if self.tolerates(Placement { rect, x, y, rotated: true }, percent) {
                Some((x, y, true))
            } else {
                self.first_tolerated(rect, anchors.skip(1), percent)
            }
        }
    }

    /// Where the bottom-left search puts `rect` in this bin when overlap up
    /// to the tolerance is allowed, if anywhere.
    pub open spec fn find_tolerated_position(self, rect: Rect, percent: u32) -> Option<
        (u32, u32, bool),
    > {
        self.first_tolerated(rect, self.anchors(), percent)
    }
}

/// With a tolerance of zero a bin tolerates what has no overlap with its
/// placements, and with a tolerance of a hundred or more whatever lies inside
/// it.
pub proof fn lemma_tolerance_bounds(bin: BinView, p: Placement, percent: u32)
    ensures
        percent == 0 ==> (bin.tolerates(p, percent) <==> bin.holds(p) && forall|i: int|
            0 <= i < bin.placements.len() ==> p.overlap_area(#[trigger] bin.placements[i]) == 0),
        percent >= 100 ==> (bin.tolerates(p, percent) <==> bin.holds(p)),
{
    assert forall|i: int| 0 <= i < bin.placements.len() implies (percent == 0 ==> (
    within_tolerance(p, #[trigger] bin.placements[i], percent) <==> p.overlap_area(
        bin.placements[i],
    ) == 0)) && (percent >= 100 ==> within_tolerance(p, bin.placements[i], percent)) by {
        let q = bin.placements[i];
        lemma_overlap_bounds(p, q);
        let larger = int_max(p.rect.spec_area(), q.rect.spec_area());
        let overlap = p.overlap_area(q);
        if percent == 0 {
            assert(percent * larger == 0) by (nonlinear_arith)
                requires
                    percent == 0,
            ;
        }
        if percent >= 100 {
            assert(overlap * 100 <= percent * larger) by (nonlinear_arith)
                requires
                    0 <= overlap <= larger,
                    percent >= 100,
            ;
        }
    }
}

/// Whether `bin` tolerates `rect` at `(x, y)` in the given orientation: the
/// rectangle lies inside the bin and overlaps no placement by more than
/// `limit` hundredths of the larger of the two rectangles.
pub fn check_overlap_limit(bin: &BoxBin, rect: Rect, x: u32, y: u32, rotated: bool, limit: u32) -> (ok:
    bool)
    ensures
        ok == bin@.tolerates(Placement { rect, x, y, rotated }, limit),
{
    let candidate = Placement { rect, x, y, rotated };
    let capacity: u64 = bin.capacity as u64;
    if x as u64 + candidate.width() as u64 > capacity || y as u64 + candidate.height() as u64
        > capacity {
        return false;
    }
    assert(rect.width * rect.height <= 0xFFFF_FFFF * 0xFFFF_FFFF) by (nonlinear_arith)
        requires
            0 <= rect.width <= 0xFFFF_FFFF,
            0 <= rect.height <= 0xFFFF_FFFF,
    ;
    let own_area: u64 = rect.width as u64 * rect.height as u64;
    let mut i: usize = 0;
    while i < bin.placements.len()
        invariant
            i <= bin.placements.len(),
            candidate == (Placement { rect, x, y, rotated }),
            own_area == rect.spec_area(),
            forall|k: int|
                0 <= k < i ==> within_tolerance(candidate, #[trigger] bin@.placements[k], limit),
        decreases bin.placements.len() - i,
    {
        let existing = bin.placements[i];
        let intersection: u64 = candidate.overlap(&existing);
        if intersection > 0 {
            assert(existing.rect.width * existing.rect.height <= 0xFFFF_FFFF * 0xFFFF_FFFF)
                by (nonlinear_arith)
                requires
                    0 <= existing.rect.width <= 0xFFFF_FFFF,
                    0 <= existing.rect.height <= 0xFFFF_FFFF,
            ;
            let other_area: u64 = existing.rect.width as u64 * existing.rect.height as u64;
            let max_area: u64 = if own_area >= other_area { own_area } else { other_area };
            assert((limit as u128) * (max_area as u128) <= 0xFFFF_FFFF
                * 0xFFFF_FFFF_FFFF_FFFF) by (nonlinear_arith)
                requires
                    0 <= limit <= 0xFFFF_FFFF,
                    0 <= max_area <= 0xFFFF_FFFF_FFFF_FFFF,
            ;
            if (intersection as u128) * 100 > (limit as u128) * (max_area as u128) {
                assert(!within_tolerance(candidate, bin@.placements[i as int], limit));
                return false;
            }
        } else {
            assert(0 <= limit * int_max(candidate.rect.spec_area(), existing.rect.spec_area()))
                by (nonlinear_arith)
                requires
                    0 <= limit,
                    0 <= int_max(candidate.rect.spec_area(), existing.rect.spec_area()),
            ;
        }
        i += 1;
    }
    true
}

/// Searches the candidate anchors of `bin` in trial order for the first
/// position at which the bin tolerates `rect`, upright before turned at each
/// anchor.
pub fn find_position_with_overlap(bin: &BoxBin, rect: Rect, max_overlap_percent: u32) -> (found:
    Option<(u32, u32, bool)>)
    ensures
        found == bin@.find_tolerated_position(rect, max_overlap_percent),
{
    let anchors = bin.candidate_anchors();
    assert(anchors@.skip(0) =~= anchors@);
    let mut i: usize = 0;
    while i < anchors.len()
        invariant
            i <= anchors.len(),
            bin@.first_tolerated(rect, anchors@.skip(i as int), max_overlap_percent)
                == bin@.find_tolerated_position(rect, max_overlap_percent),
        decreases anchors.len() - i,
    {
        let x: u32 = anchors[i].0;
        let y: u32 = anchors[i].1;
        proof {
            assert(anchors@.skip(i as int)[0] == anchors@[i as int]);
            assert(anchors@.skip(i as int).skip(1) =~= anchors@.skip(i + 1));
        }
        if check_overlap_limit(bin, rect, x, y, false, max_overlap_percent) {
            return Some((x, y, false));
        }
        if check_overlap_limit(bin, rect, x, y, true, max_overlap_percent) {
            return Some((x, y, true));
        }
        i += 1;
    }
    None
}

} // verus!
