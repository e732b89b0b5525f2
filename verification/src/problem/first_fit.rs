use vstd::prelude::*;
use crate::problem::bin::{BinView, BoxBin};
use crate::problem::measure::lemma_used_area_with;
use crate::problem::placement::Placement;
use crate::problem::rect::Rect;
use crate::problem::solution::{
    bin_views,
    placement_counts,
    total_area,
    total_count,
    used_areas,
};
use crate::problem::sums::{lemma_sum_push, lemma_sum_update, sum};

verus! {

/// `rect` upright at the lower-left corner of a bin.
pub open spec fn at_origin(rect: Rect) -> Placement {
    Placement { rect, x: 0, y: 0, rotated: false }
}

/// The index of the first bin at or after `from` in which the bottom-left
/// search finds a position for `rect`; the number of bins if there is none.
pub open spec fn first_accepting(boxes: Seq<BinView>, rect: Rect, from: int) -> int
    decreases boxes.len() - from,
{
    if from < 0 || from >= boxes.len() {
        boxes.len() as int
    } else if boxes[from].find_position(rect) is Some {
        from
    } else {
        first_accepting(boxes, rect, from + 1)
    }
}

/// The bins after `rect` went into the first bin that has room for it, or,
/// where none has, into a new bin of side `capacity` added last.
pub open spec fn first_fit_into(boxes: Seq<BinView>, rect: Rect, capacity: u32) -> Seq<BinView> {
    let k = first_accepting(boxes, rect, 0);
    if k < boxes.len() {
        boxes.update(k, boxes[k].fit(rect))
    } else {
        boxes.push(BinView::empty(capacity).with(at_origin(rect)))
    }
}

/// The bins that result from packing `rects` one after the other by first
/// fit, starting with no bin.
pub open spec fn first_fit_packing(capacity: u32, rects: Seq<Rect>) -> Seq<BinView>
    decreases rects.len(),
{
    if rects.len() == 0 {
        Seq::empty()
    } else {
        first_fit_into(first_fit_packing(capacity, rects.drop_last()), rects.last(), capacity)
    }
}

/// The first accepting bin has room for the rectangle, and no bin before it
/// has.
pub proof fn lemma_first_accepting(boxes: Seq<BinView>, rect: Rect, from: int)
    requires
        0 <= from <= boxes.len(),
    ensures
        from <= first_accepting(boxes, rect, from) <= boxes.len(),
        first_accepting(boxes, rect, from) < boxes.len() ==> boxes[first_accepting(
            boxes,
            rect,
            from,
        )].find_position(rect) is Some,
        forall|j: int|
            from <= j < first_accepting(boxes, rect, from) ==> (#[trigger] boxes[j]).find_position(
                rect,
            ) is None,
    decreases boxes.len() - from,
{
    if from < boxes.len() && boxes[from].find_position(rect) is None {
        lemma_first_accepting(boxes, rect, from + 1);
    }
}

/// Replacing a bin changes the totals by the difference between the two bins.
pub proof fn lemma_totals_update(boxes: Seq<BinView>, index: int, bin: BinView)
    requires
        0 <= index < boxes.len(),
    ensures
        total_area(boxes.update(index, bin)) == total_area(boxes) - boxes[index].used_area()
            + bin.used_area(),
        total_count(boxes.update(index, bin)) == total_count(boxes)
            - boxes[index].placements.len() + bin.placements.len(),
{
    let after = boxes.update(index, bin);
    assert(used_areas(after) =~= used_areas(boxes).update(index, bin.used_area()));
    assert(placement_counts(after) =~= placement_counts(boxes).update(
        index,
        bin.placements.len() as int,
    ));
    lemma_sum_update(used_areas(boxes), index, bin.used_area());
    lemma_sum_update(placement_counts(boxes), index, bin.placements.len() as int);
}

/// A further bin adds its area and its placements to the totals.
pub proof fn lemma_totals_push(boxes: Seq<BinView>, bin: BinView)
    ensures
        total_area(boxes.push(bin)) == total_area(boxes) + bin.used_area(),
        total_count(boxes.push(bin)) == total_count(boxes) + bin.placements.len(),
{
    let after = boxes.push(bin);
    assert(used_areas(after) =~= used_areas(boxes).push(bin.used_area()));
    assert(placement_counts(after) =~= placement_counts(boxes).push(bin.placements.len() as int));
    lemma_sum_push(used_areas(boxes), bin.used_area());
    lemma_sum_push(placement_counts(boxes), bin.placements.len() as int);
}

/// First fit places the rectangle exactly once: the total area grows by the
/// rectangle's area and the number of placements by one. Bins that were not
/// empty stay so.
pub proof fn lemma_first_fit_into_totals(boxes: Seq<BinView>, rect: Rect, capacity: u32)
    ensures
        total_area(first_fit_into(boxes, rect, capacity)) == total_area(boxes) + rect.spec_area(),
        total_count(first_fit_into(boxes, rect, capacity)) == total_count(boxes) + 1,
        (forall|b: int| 0 <= b < boxes.len() ==> (#[trigger] boxes[b]).placements.len() > 0)
            ==> (forall|b: int|
            0 <= b < first_fit_into(boxes, rect, capacity).len() ==> (#[trigger] first_fit_into(
                boxes,
                rect,
                capacity,
            )[b]).placements.len() > 0),
{
    let k = first_accepting(boxes, rect, 0);
    let after = first_fit_into(boxes, rect, capacity);
    lemma_first_accepting(boxes, rect, 0);
    if k < boxes.len() {
        let pos = boxes[k].find_position(rect).unwrap();
        let p = Placement { rect, x: pos.0, y: pos.1, rotated: pos.2 };
        assert(boxes[k].fit(rect) == boxes[k].with(p));
        lemma_used_area_with(boxes[k], p);
        lemma_totals_update(boxes, k, boxes[k].fit(rect));
        if forall|b: int| 0 <= b < boxes.len() ==> (#[trigger] boxes[b]).placements.len() > 0 {
            assert forall|b: int| 0 <= b < after.len() implies (#[trigger] after[b]).placements.len()
                > 0 by {
                if b != k {
                    assert(boxes[b].placements.len() > 0);
                }
            }
        }
    } else {
        let fresh = BinView::empty(capacity).with(at_origin(rect));
        lemma_used_area_with(BinView::empty(capacity), at_origin(rect));
        assert(BinView::empty(capacity).rect_areas() =~= Seq::<int>::empty());
        assert(sum(Seq::<int>::empty()) == 0);
        lemma_totals_push(boxes, fresh);
        if forall|b: int| 0 <= b < boxes.len() ==> (#[trigger] boxes[b]).placements.len() > 0 {
            assert forall|b: int| 0 <= b < after.len() implies (#[trigger] after[b]).placements.len()
                > 0 by {
                if b < boxes.len() {
                    assert(boxes[b].placements.len() > 0);
                }
            }
        }
    }
}

/// Puts `rect` into the first of `boxes` in which the bottom-left search
/// finds a position for it; where there is none, into a new bin of side
/// `capacity`, at its lower-left corner.
pub fn place_first_fit(boxes: &mut Vec<BoxBin>, rect: Rect, capacity: u32)
    ensures
        bin_views(final(boxes)@) == first_fit_into(bin_views(old(boxes)@), rect, capacity),
{
    let ghost before = bin_views(boxes@);
    let mut i: usize = 0;
    while i < boxes.len()
        invariant
            i <= boxes.len(),
            boxes@ == old(boxes)@,
            before == bin_views(old(boxes)@),
            first_accepting(before, rect, i as int) == first_accepting(before, rect, 0),
        decreases boxes.len() - i,
    {
        assert(before[i as int] == boxes@[i as int]@);
        match boxes[i].find_position_in_box(rect) {
            Some((x, y, rotated)) => {
                boxes[i].placements.push(Placement { rect, x, y, rotated });
                assert(bin_views(boxes@) =~= before.update(i as int, before[i as int].fit(rect)));
                return ;
            },
            None => {},
        }
        i += 1;
    }
    let mut new_bin = BoxBin::new(capacity);
    new_bin.placements.push(Placement { rect, x: 0, y: 0, rotated: false });
    boxes.push(new_bin);
    assert(bin_views(boxes@) =~= before.push(BinView::empty(capacity).with(at_origin(rect))));
}

} // verus!
