use vstd::prelude::*;
use crate::problem::bin::{lemma_accepted_placement_keeps_packed, lemma_first_fit, BinView};
use crate::problem::coverage::{
    lemma_placed_push,
    lemma_placed_swap_remove_empty,
    lemma_placed_update,
    lemma_rects_of_empty,
    lemma_rects_with,
    lemma_rects_without,
    placed_rects,
};
use crate::problem::first_fit::{at_origin, lemma_totals_push, lemma_totals_update};
use crate::problem::measure::{lemma_used_area_with, lemma_used_area_without};
use crate::problem::moves::{dropped_if_empty, opened, put_in, relocated, taken_out, MoveRule};
use crate::problem::placement::{lemma_overlap_area_symmetric_and_zero_iff_disjoint, Placement};
use crate::problem::rect::Rect;
use crate::problem::solution::{
    placement_counts,
    total_area,
    total_count,
    used_areas,
    PackingView,
};
use crate::problem::sums::{lemma_sum_swap_remove, sum};

verus! {

/// What every move leaves as it was: the instance, the penalty factor, the
/// rectangles placed and with them their number and summed area. A move
/// leaves no bin empty where none was, and places no rectangle that does not
/// fit the bins where none did.
pub open spec fn conserved(from: PackingView, to: PackingView) -> bool {
    &&& to.instance == from.instance
    &&& to.penalty_factor == from.penalty_factor
    &&& total_area(to.boxes) == total_area(from.boxes)
    &&& total_count(to.boxes) == total_count(from.boxes)
    &&& placed_rects(to.boxes) == placed_rects(from.boxes)
    &&& (from.no_empty_bin() ==> to.no_empty_bin())
    &&& (from.rects_fit() ==> to.rects_fit())
}

/// What a move under the strict rule never does: add a bin, or bring
/// placements of one bin to intersect or to overlap.
pub open spec fn consolidated(from: PackingView, to: PackingView) -> bool {
    &&& to.boxes.len() <= from.boxes.len()
    &&& (from.packed() ==> to.packed())
    &&& (from.overlap_free() ==> to.overlap_free())
}

/// Every packing of `list` is reached from `from` by a move that conserves,
/// and under the strict rule consolidates.
pub open spec fn all_moves_keep(rule: MoveRule, from: PackingView, list: Seq<PackingView>) -> bool {
    forall|i: int|
        0 <= i < list.len() ==> conserved(from, #[trigger] list[i]) && (rule is Strict
            ==> consolidated(from, list[i]))
}

/// The placements of a bin from which one was taken are placements of the
/// bin, each at one slot only.
pub proof fn lemma_without(bin: BinView, index: int)
    requires
        0 <= index < bin.placements.len(),
    ensures
        bin.without(index).capacity == bin.capacity,
        bin.without(index).placements.len() == bin.placements.len() - 1,
        forall|i: int|
            0 <= i < bin.placements.len() - 1 ==> #[trigger] bin.without(index).placements[i] == (
            if i == index {
                bin.placements.last()
            } else {
                bin.placements[i]
            }),
        bin.packed() ==> bin.without(index).packed(),
        bin.overlap_free() ==> bin.without(index).overlap_free(),
{
    let less = bin.without(index);
    let last = bin.placements.len() - 1;
    if bin.packed() {
        assert forall|i: int| 0 <= i < less.placements.len() implies less.holds(
            #[trigger] less.placements[i],
        ) by {
            let si = if i == index { last } else { i };
            assert(bin.holds(bin.placements[si]));
        }
        assert forall|i: int, j: int|
            0 <= i < less.placements.len() && 0 <= j < less.placements.len() && i != j implies
            !less.placements[i].spec_intersects(less.placements[j]) by {
            let si = if i == index { last } else { i };
            let sj = if j == index { last } else { j };
            assert(!bin.placements[si].spec_intersects(bin.placements[sj]));
        }
    }
    if bin.overlap_free() {
        assert forall|i: int, j: int|
            0 <= i < less.placements.len() && 0 <= j < less.placements.len() && i != j implies
            less.placements[i].overlap_area(less.placements[j]) == 0 by {
            let si = if i == index { last } else { i };
            let sj = if j == index { last } else { j };
            assert(bin.placements[si].overlap_area(bin.placements[sj]) == 0);
        }
    }
}

/// A bin that takes a placement it accepts gains no overlap.
pub proof fn lemma_accepted_placement_keeps_overlap_free(bin: BinView, p: Placement)
    requires
        bin.overlap_free(),
        bin.accepts(p),
    ensures
        bin.with(p).overlap_free(),
{
    let after = bin.with(p);
    assert forall|i: int, j: int|
        0 <= i < after.placements.len() && 0 <= j < after.placements.len() && i != j implies
        after.placements[i].overlap_area(after.placements[j]) == 0 by {
        if i < bin.placements.len() && j < bin.placements.len() {
            assert(bin.placements[i].overlap_area(bin.placements[j]) == 0);
        } else if i < bin.placements.len() {
            assert(!p.spec_intersects(bin.placements[i]));
            lemma_overlap_area_symmetric_and_zero_iff_disjoint(p, bin.placements[i]);
        } else {
            assert(!p.spec_intersects(bin.placements[j]));
            lemma_overlap_area_symmetric_and_zero_iff_disjoint(p, bin.placements[j]);
        }
    }
}

/// Removing an empty bin, the last bin taking its slot, leaves the totals as
/// they were.
pub proof fn lemma_totals_drop_empty(boxes: Seq<BinView>, index: int)
    requires
        0 <= index < boxes.len(),
        boxes[index].placements.len() == 0,
    ensures
        total_area(boxes.update(index, boxes.last()).drop_last()) == total_area(boxes),
        total_count(boxes.update(index, boxes.last()).drop_last()) == total_count(boxes),
{
    let after = boxes.update(index, boxes.last()).drop_last();
    let areas = used_areas(boxes);
    let counts = placement_counts(boxes);
    assert(used_areas(after) =~= areas.update(index, areas.last()).drop_last());
    assert(placement_counts(after) =~= counts.update(index, counts.last()).drop_last());
    lemma_sum_swap_remove(areas, index);
    lemma_sum_swap_remove(counts, index);
    assert(boxes[index].rect_areas() =~= Seq::<int>::empty());
    assert(sum(Seq::<int>::empty()) == 0);
}

/// Taking a placement out of a bin takes its rectangle off what is placed.
pub proof fn lemma_taken_out(packing: PackingView, src: int, p: int)
    requires
        0 <= src < packing.boxes.len(),
        0 <= p < packing.boxes[src].placements.len(),
    ensures
        taken_out(packing.boxes, src, p).len() == packing.boxes.len(),
        total_area(taken_out(packing.boxes, src, p)) == total_area(packing.boxes)
            - packing.boxes[src].placements[p].rect.spec_area(),
        total_count(taken_out(packing.boxes, src, p)) == total_count(packing.boxes) - 1,
        placed_rects(packing.boxes).count(packing.boxes[src].placements[p].rect) > 0,
        placed_rects(taken_out(packing.boxes, src, p)) == placed_rects(packing.boxes).remove(
            packing.boxes[src].placements[p].rect,
        ),
{
    broadcast use vstd::multiset::group_multiset_axioms;

    let boxes = packing.boxes;
    let rect = boxes[src].placements[p].rect;
    let out = taken_out(boxes, src, p);
    lemma_without(boxes[src], p);
    lemma_used_area_without(boxes[src], p);
    lemma_totals_update(boxes, src, boxes[src].without(p));
    lemma_rects_without(boxes[src], p);
    lemma_placed_update(boxes, src, boxes[src].without(p));
    assert forall|x: Rect| placed_rects(out).count(x) == placed_rects(boxes).remove(rect).count(
        x,
    ) && placed_rects(boxes).count(rect) > 0 by {
        assert(placed_rects(out).add(boxes[src].rects()).count(x) == placed_rects(boxes).add(
            out[src].rects(),
        ).count(x));
        assert(placed_rects(out).add(boxes[src].rects()).count(rect) == placed_rects(boxes).add(
            out[src].rects(),
        ).count(rect));
    }
    assert(placed_rects(out) =~= placed_rects(boxes).remove(rect));
}

/// Adding a placement to a bin adds its rectangle to what is placed.
pub proof fn lemma_put_in(boxes: Seq<BinView>, tgt: int, placement: Placement)
    requires
        0 <= tgt < boxes.len(),
    ensures
        put_in(boxes, tgt, placement).len() == boxes.len(),
        total_area(put_in(boxes, tgt, placement)) == total_area(boxes)
            + placement.rect.spec_area(),
        total_count(put_in(boxes, tgt, placement)) == total_count(boxes) + 1,
        placed_rects(put_in(boxes, tgt, placement)) == placed_rects(boxes).insert(placement.rect),
{
    broadcast use vstd::multiset::group_multiset_axioms;

    let put = put_in(boxes, tgt, placement);
    lemma_used_area_with(boxes[tgt], placement);
    lemma_totals_update(boxes, tgt, boxes[tgt].with(placement));
    lemma_rects_with(boxes[tgt], placement);
    lemma_placed_update(boxes, tgt, boxes[tgt].with(placement));
    assert forall|x: Rect| placed_rects(put).count(x) == placed_rects(boxes).insert(
        placement.rect,
    ).count(x) by {
        assert(placed_rects(put).add(boxes[tgt].rects()).count(x) == placed_rects(boxes).add(
            put[tgt].rects(),
        ).count(x));
    }
    assert(placed_rects(put) =~= placed_rects(boxes).insert(placement.rect));
}

/// Dropping the source bin where it is empty changes neither the totals nor
/// what is placed, and every bin left is one of the bins before.
pub proof fn lemma_dropped_if_empty(boxes: Seq<BinView>, src: int)
    requires
        0 <= src < boxes.len(),
    ensures
        dropped_if_empty(boxes, src).len() <= boxes.len(),
        total_area(dropped_if_empty(boxes, src)) == total_area(boxes),
        total_count(dropped_if_empty(boxes, src)) == total_count(boxes),
        placed_rects(dropped_if_empty(boxes, src)) == placed_rects(boxes),
        forall|i: int|
            0 <= i < dropped_if_empty(boxes, src).len() ==> exists|k: int|
                0 <= k < boxes.len() && (k != src || boxes[src].placements.len() > 0)
                    && #[trigger] dropped_if_empty(boxes, src)[i] == boxes[k],
{
    let after = dropped_if_empty(boxes, src);
    if boxes[src].placements.len() == 0 {
        lemma_totals_drop_empty(boxes, src);
        lemma_placed_swap_remove_empty(boxes, src);
        assert forall|i: int| 0 <= i < after.len() implies exists|k: int|
            0 <= k < boxes.len() && (k != src || boxes[src].placements.len() > 0)
                && #[trigger] after[i] == boxes[k] by {
            if i == src {
                assert(after[i] == boxes[boxes.len() - 1]);
            } else {
                assert(after[i] == boxes[i]);
            }
        }
    } else {
        assert forall|i: int| 0 <= i < after.len() implies exists|k: int|
            0 <= k < boxes.len() && (k != src || boxes[src].placements.len() > 0)
                && #[trigger] after[i] == boxes[k] by {
            assert(after[i] == boxes[i]);
        }
    }
}

/// Moving a rectangle from one bin to another conserves.
pub proof fn lemma_relocated_conserves(
    packing: PackingView,
    src: int,
    p: int,
    tgt: int,
    pos: (u32, u32, bool),
)
    requires
        0 <= src < packing.boxes.len(),
        0 <= p < packing.boxes[src].placements.len(),
        0 <= tgt < packing.boxes.len(),
        tgt != src,
    ensures
        conserved(packing, packing.with_boxes(relocated(packing.boxes, src, p, tgt, pos))),
        relocated(packing.boxes, src, p, tgt, pos).len() <= packing.boxes.len(),
{
    broadcast use vstd::multiset::group_multiset_axioms;

    let boxes = packing.boxes;
    let rect = boxes[src].placements[p].rect;
    let placement = Placement { rect, x: pos.0, y: pos.1, rotated: pos.2 };
    let out = taken_out(boxes, src, p);
    let put = put_in(out, tgt, placement);
    let after = relocated(boxes, src, p, tgt, pos);
    let to = packing.with_boxes(after);
    lemma_without(boxes[src], p);
    lemma_taken_out(packing, src, p);
    lemma_put_in(out, tgt, placement);
    lemma_dropped_if_empty(put, src);
    assert(placed_rects(after) =~= placed_rects(boxes));
    assert(put[tgt].placements.len() > 0);
    if packing.no_empty_bin() {
        assert forall|b: int| 0 <= b < after.len() implies (#[trigger] after[b]).placements.len()
            > 0 by {
            let k = choose|k: int|
                0 <= k < put.len() && (k != src || put[src].placements.len() > 0) && after[b]
                    == put[k];
            if k != src && k != tgt {
                assert(put[k] == boxes[k]);
                assert(boxes[k].placements.len() > 0);
            }
        }
    }
    if packing.rects_fit() {
        let capacity = packing.instance.box_size;
        assert(boxes[src].placements[p].rect.fits_within(capacity));
        assert forall|b: int, i: int|
            0 <= b < after.len() && 0 <= i < after[b].placements.len() implies (
        #[trigger] after[b].placements[i]).rect.fits_within(capacity) by {
            let k = choose|k: int|
                0 <= k < put.len() && (k != src || put[src].placements.len() > 0) && after[b]
                    == put[k];
            if k == src {
                let si = if i == p { boxes[src].placements.len() - 1 } else { i };
                assert(put[k].placements[i] == boxes[src].placements[si]);
                assert(boxes[src].placements[si].rect.fits_within(capacity));
            } else if k == tgt {
                if i < boxes[tgt].placements.len() {
                    assert(put[k].placements[i] == boxes[tgt].placements[i]);
                    assert(boxes[tgt].placements[i].rect.fits_within(capacity));
                }
            } else {
                assert(put[k] == boxes[k]);
                assert(boxes[k].placements[i].rect.fits_within(capacity));
            }
        }
    }
}

/// Moving a rectangle to a position where the other bin accepts it adds no
/// bin and brings about no intersection and no overlap.
pub proof fn lemma_relocated_consolidates(
    packing: PackingView,
    src: int,
    p: int,
    tgt: int,
    pos: (u32, u32, bool),
)
    requires
        0 <= src < packing.boxes.len(),
        0 <= p < packing.boxes[src].placements.len(),
        0 <= tgt < packing.boxes.len(),
        tgt != src,
        packing.boxes[tgt].accepts(
            Placement {
                rect: packing.boxes[src].placements[p].rect,
                x: pos.0,
                y: pos.1,
                rotated: pos.2,
            },
        ),
    ensures
        consolidated(packing, packing.with_boxes(relocated(packing.boxes, src, p, tgt, pos))),
{
    let boxes = packing.boxes;
    let rect = boxes[src].placements[p].rect;
    let placement = Placement { rect, x: pos.0, y: pos.1, rotated: pos.2 };
    let out = taken_out(boxes, src, p);
    let put = put_in(out, tgt, placement);
    let after = relocated(boxes, src, p, tgt, pos);
    lemma_without(boxes[src], p);
    lemma_dropped_if_empty(put, src);
    if packing.packed() {
        assert(boxes[src].packed());
        assert(boxes[tgt].packed());
        lemma_accepted_placement_keeps_packed(boxes[tgt], placement);
        assert forall|b: int| 0 <= b < after.len() implies (#[trigger] after[b]).packed() by {
            let k = choose|k: int|
                0 <= k < put.len() && (k != src || put[src].placements.len() > 0) && after[b]
                    == put[k];
            if k != src && k != tgt {
                assert(put[k] == boxes[k]);
                assert(boxes[k].packed());
            }
        }
    }
    if packing.overlap_free() {
        assert(boxes[src].overlap_free());
        assert(boxes[tgt].overlap_free());
        lemma_accepted_placement_keeps_overlap_free(boxes[tgt], placement);
        assert forall|b: int| 0 <= b < after.len() implies (#[trigger] after[b]).overlap_free() by {
            let k = choose|k: int|
                0 <= k < put.len() && (k != src || put[src].placements.len() > 0) && after[b]
                    == put[k];
            if k != src && k != tgt {
                assert(put[k] == boxes[k]);
                assert(boxes[k].overlap_free());
            }
        }
    }
}

/// Moving a rectangle that fits the bins into a new bin conserves.
pub proof fn lemma_opened_conserves(packing: PackingView, src: int, p: int)
    requires
        0 <= src < packing.boxes.len(),
        0 <= p < packing.boxes[src].placements.len(),
        packing.rects_fit(),
    ensures
        conserved(
            packing,
            packing.with_boxes(opened(packing.boxes, src, p, packing.instance.box_size)),
        ),
{
    broadcast use vstd::multiset::group_multiset_axioms;

    let boxes = packing.boxes;
    let capacity = packing.instance.box_size;
    let rect = boxes[src].placements[p].rect;
    let out = taken_out(boxes, src, p);
    let kept = dropped_if_empty(out, src);
    let fresh = BinView::empty(capacity).with(at_origin(rect));
    let after = opened(boxes, src, p, capacity);
    assert(boxes[src].placements[p].rect.fits_within(capacity));
    assert(BinView::empty(capacity).accepts(at_origin(rect)));
    assert(after == kept.push(fresh));
    lemma_without(boxes[src], p);
    lemma_taken_out(packing, src, p);
    lemma_dropped_if_empty(out, src);
    lemma_used_area_with(BinView::empty(capacity), at_origin(rect));
    assert(BinView::empty(capacity).rect_areas() =~= Seq::<int>::empty());
    assert(sum(Seq::<int>::empty()) == 0);
    lemma_totals_push(kept, fresh);
    lemma_rects_of_empty(BinView::empty(capacity));
    lemma_rects_with(BinView::empty(capacity), at_origin(rect));
    lemma_placed_push(kept, fresh);
    assert(placed_rects(after) =~= placed_rects(boxes));
    if packing.no_empty_bin() {
        assert forall|b: int| 0 <= b < after.len() implies (#[trigger] after[b]).placements.len()
            > 0 by {
            if b < kept.len() {
                let k = choose|k: int|
                    0 <= k < out.len() && (k != src || out[src].placements.len() > 0) && kept[b]
                        == out[k];
                if k != src {
                    assert(out[k] == boxes[k]);
                    assert(boxes[k].placements.len() > 0);
                }
            }
        }
    }
    assert forall|b: int, i: int|
        0 <= b < after.len() && 0 <= i < after[b].placements.len() implies (
    #[trigger] after[b].placements[i]).rect.fits_within(capacity) by {
        if b < kept.len() {
            let k = choose|k: int|
                0 <= k < out.len() && (k != src || out[src].placements.len() > 0) && kept[b]
                    == out[k];
            if k == src {
                let si = if i == p { boxes[src].placements.len() - 1 } else { i };
                assert(out[k].placements[i] == boxes[src].placements[si]);
                assert(boxes[src].placements[si].rect.fits_within(capacity));
            } else {
                assert(out[k] == boxes[k]);
                assert(boxes[k].placements[i].rect.fits_within(capacity));
            }
        }
    }
}

/// The moves of one placement into other bins conserve, and under the strict
/// rule consolidate.
pub proof fn lemma_moves_into_keep(rule: MoveRule, packing: PackingView, src: int, p: int, upto: int)
    requires
        0 <= src < packing.boxes.len(),
        0 <= p < packing.boxes[src].placements.len(),
        0 <= upto <= packing.boxes.len(),
    ensures
        all_moves_keep(rule, packing, rule.moves_into(packing, src, p, upto)),
    decreases upto,
{
    if upto > 0 {
        lemma_moves_into_keep(rule, packing, src, p, upto - 1);
        let before = rule.moves_into(packing, src, p, upto - 1);
        let tgt = upto - 1;
        let rect = packing.boxes[src].placements[p].rect;
        if tgt != src && rule.position(packing.boxes[tgt], rect) is Some {
            let pos = rule.position(packing.boxes[tgt], rect).unwrap();
            let to = packing.with_boxes(relocated(packing.boxes, src, p, tgt, pos));
            lemma_relocated_conserves(packing, src, p, tgt, pos);
            if rule is Strict {
                lemma_first_fit(packing.boxes[tgt], rect, packing.boxes[tgt].anchors());
                lemma_relocated_consolidates(packing, src, p, tgt, pos);
            }
            let list = before.push(to);
            assert forall|i: int| 0 <= i < list.len() implies conserved(packing, #[trigger] list[i])
                && (rule is Strict ==> consolidated(packing, list[i])) by {
                if i < before.len() {
                    assert(list[i] == before[i]);
                }
            }
        }
    }
}

/// The moves of one placement conserve, and under the strict rule
/// consolidate.
pub proof fn lemma_moves_of_placement_keep(rule: MoveRule, packing: PackingView, src: int, p: int)
    requires
        0 <= src < packing.boxes.len(),
        0 <= p < packing.boxes[src].placements.len(),
        rule.opens_bins() ==> packing.rects_fit(),
    ensures
        all_moves_keep(rule, packing, rule.moves_of_placement(packing, src, p)),
{
    let into = rule.moves_into(packing, src, p, packing.boxes.len() as int);
    lemma_moves_into_keep(rule, packing, src, p, packing.boxes.len() as int);
    if rule.opens_bins() && into.len() == 0 {
        lemma_opened_conserves(packing, src, p);
    }
}

/// The moves of the placements of one bin conserve, and under the strict rule
/// consolidate.
pub proof fn lemma_moves_of_bin_keep(rule: MoveRule, packing: PackingView, src: int, upto: int)
    requires
        0 <= src < packing.boxes.len(),
        0 <= upto <= packing.boxes[src].placements.len(),
        rule.opens_bins() ==> packing.rects_fit(),
    ensures
        all_moves_keep(rule, packing, rule.moves_of_bin(packing, src, upto)),
    decreases upto,
{
    if upto > 0 {
        lemma_moves_of_bin_keep(rule, packing, src, upto - 1);
        lemma_moves_of_placement_keep(rule, packing, src, upto - 1);
        let a = rule.moves_of_bin(packing, src, upto - 1);
        let b = rule.moves_of_placement(packing, src, upto - 1);
        let list = a + b;
        assert forall|i: int| 0 <= i < list.len() implies conserved(packing, #[trigger] list[i])
            && (rule is Strict ==> consolidated(packing, list[i])) by {
            if i < a.len() {
                assert(list[i] == a[i]);
            } else {
                assert(list[i] == b[i - a.len()]);
            }
        }
    }
}

/// The moves of the placements of the first bins conserve, and under the
/// strict rule consolidate.
pub proof fn lemma_moves_upto_keep(rule: MoveRule, packing: PackingView, upto: int)
    requires
        0 <= upto <= packing.boxes.len(),
        rule.opens_bins() ==> packing.rects_fit(),
    ensures
        all_moves_keep(rule, packing, rule.moves_upto(packing, upto)),
    decreases upto,
{
    if upto > 0 {
        lemma_moves_upto_keep(rule, packing, upto - 1);
        lemma_moves_of_bin_keep(
            rule,
            packing,
            upto - 1,
            packing.boxes[upto - 1].placements.len() as int,
        );
        let a = rule.moves_upto(packing, upto - 1);
        let b = rule.moves_of_bin(
            packing,
            upto - 1,
            packing.boxes[upto - 1].placements.len() as int,
        );
        let list = a + b;
        assert forall|i: int| 0 <= i < list.len() implies conserved(packing, #[trigger] list[i])
            && (rule is Strict ==> consolidated(packing, list[i])) by {
            if i < a.len() {
                assert(list[i] == a[i]);
            } else {
                assert(list[i] == b[i - a.len()]);
            }
        }
    }
}

/// Every move conserves, and every move under the strict rule consolidates.
/// Under a rule that opens bins this holds of packings whose rectangles fit
/// the bins.
pub proof fn lemma_moves_keep(rule: MoveRule, packing: PackingView)
    requires
        rule.opens_bins() ==> packing.rects_fit(),
    ensures
        all_moves_keep(rule, packing, rule.moves(packing)),
{
    lemma_moves_upto_keep(rule, packing, packing.boxes.len() as int);
}

/// A packing reached by a conserving move from one whose cost can be computed
/// is one whose cost can be computed.
pub proof fn lemma_conserved_in_range(from: PackingView, to: PackingView)
    requires
        conserved(from, to),
        from.in_range(),
    ensures
        to.in_range(),
{
}

} // verus!
