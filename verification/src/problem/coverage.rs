use vstd::prelude::*;
use vstd::multiset::Multiset;
use crate::problem::bin::BinView;
use crate::problem::first_fit::{at_origin, first_accepting, first_fit_into, lemma_first_accepting};
use crate::problem::placement::Placement;
use crate::problem::rect::Rect;

verus! {

/// The rectangles of a list of placements, in placement order.
pub open spec fn rects_of(placements: Seq<Placement>) -> Seq<Rect> {
    Seq::new(placements.len(), |i: int| placements[i].rect)
}

impl BinView {
    /// The rectangles in the bin, each as often as it is placed.
    pub open spec fn rects(self) -> Multiset<Rect> {
        rects_of(self.placements).to_multiset()
    }
}

/// The rectangles in all the bins, each as often as it is placed.
pub open spec fn placed_rects(boxes: Seq<BinView>) -> Multiset<Rect>
    decreases boxes.len(),
{
    if boxes.len() == 0 {
        Multiset::empty()
    } else {
        placed_rects(boxes.drop_last()).add(boxes.last().rects())
    }
}

/// A bin without placements holds no rectangle.
pub proof fn lemma_rects_of_empty(bin: BinView)
    requires
        bin.placements.len() == 0,
    ensures
        bin.rects() == Multiset::<Rect>::empty(),
{
    vstd::seq_lib::to_multiset_len(rects_of(bin.placements));
    vstd::multiset::lemma_multiset_empty_len(bin.rects());
}

/// A bin with a further placement holds that placement's rectangle once more.
pub proof fn lemma_rects_with(bin: BinView, p: Placement)
    ensures
        bin.with(p).rects() == bin.rects().insert(p.rect),
{
    assert(rects_of(bin.with(p).placements) =~= rects_of(bin.placements).push(p.rect));
    vstd::seq_lib::to_multiset_build(rects_of(bin.placements), p.rect);
}

/// A bin from which a placement was taken holds that placement's rectangle
/// once less.
pub proof fn lemma_rects_without(bin: BinView, index: int)
    requires
        0 <= index < bin.placements.len(),
    ensures
        bin.rects().count(bin.placements[index].rect) > 0,
        bin.without(index).rects() == bin.rects().remove(bin.placements[index].rect),
{
    broadcast use vstd::multiset::group_multiset_axioms;

    let all = rects_of(bin.placements);
    let last = all.len() - 1;
    let swapped = all.update(index, all.last());
    assert(rects_of(bin.without(index).placements) =~= swapped.remove(last));
    vstd::seq_lib::to_multiset_remove(swapped, last);
    vstd::seq_lib::to_multiset_update(all, index, all.last());
    vstd::seq_lib::to_multiset_contains(all, all[index]);
    vstd::seq_lib::to_multiset_contains(all, all.last());
    assert(all.contains(all[index]));
    assert(all.contains(all.last()));
    assert(bin.without(index).rects() =~= bin.rects().remove(all[index]));
}

/// A further bin adds its rectangles to those placed.
pub proof fn lemma_placed_push(boxes: Seq<BinView>, bin: BinView)
    ensures
        placed_rects(boxes.push(bin)) == placed_rects(boxes).add(bin.rects()),
{
    assert(boxes.push(bin).drop_last() =~= boxes);
}

/// Replacing a bin replaces its rectangles among those placed.
pub proof fn lemma_placed_update(boxes: Seq<BinView>, index: int, bin: BinView)
    requires
        0 <= index < boxes.len(),
    ensures
        placed_rects(boxes.update(index, bin)).add(boxes[index].rects()) == placed_rects(
            boxes,
        ).add(bin.rects()),
    decreases boxes.len(),
{
    broadcast use vstd::multiset::group_multiset_axioms;

    let after = boxes.update(index, bin);
    if index == boxes.len() - 1 {
        assert(after.drop_last() =~= boxes.drop_last());
        assert(placed_rects(after).add(boxes[index].rects()) =~= placed_rects(boxes).add(
            bin.rects(),
        ));
    } else {
        assert(after.drop_last() =~= boxes.drop_last().update(index, bin));
        lemma_placed_update(boxes.drop_last(), index, bin);
        let front_after = placed_rects(boxes.drop_last().update(index, bin));
        let front = placed_rects(boxes.drop_last());
        assert(front_after.add(boxes[index].rects()) == front.add(bin.rects()));
        assert forall|r: Rect|
            placed_rects(after).add(boxes[index].rects()).count(r) == placed_rects(boxes).add(
                bin.rects(),
            ).count(r) by {
            assert(front_after.add(boxes[index].rects()).count(r) == front.add(bin.rects()).count(
                r,
            ));
        }
        assert(placed_rects(after).add(boxes[index].rects()) =~= placed_rects(boxes).add(
            bin.rects(),
        ));
    }
}

/// Moving the last bin into the slot of an empty one leaves the placed
/// rectangles as they are.
pub proof fn lemma_placed_swap_remove_empty(boxes: Seq<BinView>, index: int)
    requires
        0 <= index < boxes.len(),
        boxes[index].placements.len() == 0,
    ensures
        placed_rects(boxes.update(index, boxes.last()).drop_last()) == placed_rects(boxes),
{
    broadcast use vstd::multiset::group_multiset_axioms;

    let swapped = boxes.update(index, boxes.last());
    lemma_placed_update(boxes, index, boxes.last());
    lemma_rects_of_empty(boxes[index]);
    assert(placed_rects(swapped) == placed_rects(swapped.drop_last()).add(swapped.last().rects()));
    assert(swapped.last() == boxes.last());
    assert forall|r: Rect|
        placed_rects(swapped.drop_last()).count(r) == placed_rects(boxes).count(r) by {
        assert(placed_rects(swapped).add(boxes[index].rects()).count(r) == placed_rects(boxes).add(
            boxes.last().rects(),
        ).count(r));
    }
    assert(placed_rects(swapped.drop_last()) =~= placed_rects(boxes));
}

/// First fit places the rectangle exactly once.
pub proof fn lemma_first_fit_into_places(boxes: Seq<BinView>, rect: Rect, capacity: u32)
    ensures
        placed_rects(first_fit_into(boxes, rect, capacity)) == placed_rects(boxes).insert(rect),
{
    broadcast use vstd::multiset::group_multiset_axioms;

    let k = first_accepting(boxes, rect, 0);
    lemma_first_accepting(boxes, rect, 0);
    let after = first_fit_into(boxes, rect, capacity);
    if k < boxes.len() {
        let pos = boxes[k].find_position(rect).unwrap();
        let p = Placement { rect, x: pos.0, y: pos.1, rotated: pos.2 };
        lemma_rects_with(boxes[k], p);
        lemma_placed_update(boxes, k, boxes[k].with(p));
        assert forall|r: Rect| placed_rects(after).count(r) == placed_rects(boxes).insert(
            rect,
        ).count(r) by {
            assert(placed_rects(after).add(boxes[k].rects()).count(r) == placed_rects(boxes).add(
                boxes[k].with(p).rects(),
            ).count(r));
        }
        assert(placed_rects(after) =~= placed_rects(boxes).insert(rect));
    } else {
        let fresh = BinView::empty(capacity).with(at_origin(rect));
        lemma_rects_with(BinView::empty(capacity), at_origin(rect));
        lemma_rects_of_empty(BinView::empty(capacity));
        lemma_placed_push(boxes, fresh);
        assert(placed_rects(after) =~= placed_rects(boxes).insert(rect));
    }
}

} // verus!
