use vstd::prelude::*;
use crate::problem::bin::{BinView, BoxBin};
use crate::problem::first_fit::at_origin;
use crate::problem::placement::Placement;
use crate::problem::rect::Rect;
use crate::problem::solution::{bin_views, PackingView, RectangleSolution};
use crate::problem::tolerance::find_position_with_overlap;

verus! {

/// How a rectangle may be moved into another bin.
#[derive(Clone, Copy, Debug)]
pub enum MoveRule {
    /// Only to a position where it intersects nothing; no bin is opened.
    Strict,
    /// To a position where it overlaps each placement by at most `percent`
    /// hundredths of the larger rectangle; where no other bin has such a
    /// position, into a new bin.
    Tolerant { percent: u32 },
}

/// The contents of a list of packings.
pub open spec fn packing_views(solutions: Seq<RectangleSolution>) -> Seq<PackingView> {
    Seq::new(solutions.len(), |i: int| solutions[i]@)
}

/// The bins after the placement at `p` left the bin at `src`, the last
/// placement of that bin taking its slot.
pub open spec fn taken_out(boxes: Seq<BinView>, src: int, p: int) -> Seq<BinView> {
    boxes.update(src, boxes[src].without(p))
}

/// The bins after `placement` was added to the bin at `tgt`.
pub open spec fn put_in(boxes: Seq<BinView>, tgt: int, placement: Placement) -> Seq<BinView> {
    boxes.update(tgt, boxes[tgt].with(placement))
}

/// The bins without the bin at `src` if that bin is empty, the last bin taking
/// its slot; the bins as they are if it is not.
pub open spec fn dropped_if_empty(boxes: Seq<BinView>, src: int) -> Seq<BinView> {
    if boxes[src].placements.len() == 0 {
        boxes.update(src, boxes.last()).drop_last()
    } else {
        boxes
    }
}

/// The bins after the rectangle placed at `p` in the bin at `src` moved to
/// position `pos` of the bin at `tgt`.
pub open spec fn relocated(
    boxes: Seq<BinView>,
    src: int,
    p: int,
    tgt: int,
    pos: (u32, u32, bool),
) -> Seq<BinView> {
    let rect = boxes[src].placements[p].rect;
    dropped_if_empty(
        put_in(taken_out(boxes, src, p), tgt, Placement { rect, x: pos.0, y: pos.1, rotated: pos.2 }),
        src,
    )
}

/// The bins after the rectangle placed at `p` in the bin at `src` moved to
/// the lower-left corner of a new bin of side `capacity`, added last.
pub open spec fn opened(boxes: Seq<BinView>, src: int, p: int, capacity: u32) -> Seq<BinView> {
    let rect = boxes[src].placements[p].rect;
    dropped_if_empty(taken_out(boxes, src, p), src).push(
        BinView::empty(capacity).place(at_origin(rect)),
    )
}

impl PackingView {
    /// The packing with its bins replaced.
    pub open spec fn with_boxes(self, boxes: Seq<BinView>) -> PackingView {
        PackingView { boxes, ..self }
    }
}

impl MoveRule {
    /// Where the rule lets `rect` go in `bin`, if anywhere.
    pub open spec fn position(self, bin: BinView, rect: Rect) -> Option<(u32, u32, bool)> {
        match self {
            MoveRule::Strict => bin.find_position(rect),
            MoveRule::Tolerant { percent } => bin.find_tolerated_position(rect, percent),
        }
    }

    /// The rule opens a new bin for a rectangle that no other bin takes.
    pub open spec fn opens_bins(self) -> bool {
        self is Tolerant
    }

    /// The moves of the placement at `p` of the bin at `src` into the bins
    /// before `upto`, in the order of the bins.
    pub open spec fn moves_into(self, packing: PackingView, src: int, p: int, upto: int) -> Seq<
        PackingView,
    >
        decreases upto,
    {
        if upto <= 0 {
            Seq::empty()
        } else {
            let before = self.moves_into(packing, src, p, upto - 1);
            let tgt = upto - 1;
            let rect = packing.boxes[src].placements[p].rect;
            if tgt != src && self.position(packing.boxes[tgt], rect) is Some {
                before.push(
                    packing.with_boxes(
                        relocated(
                            packing.boxes,
                            src,
                            p,
                            tgt,
                            self.position(packing.boxes[tgt], rect).unwrap(),
                        ),
                    ),
                )
            } else {
                before
            }
        }
    }

    /// The moves of the placement at `p` of the bin at `src`: into every
    /// other bin that takes its rectangle, in the order of the bins, and,
    /// where the rule opens bins and no other bin takes it, into a new bin.
    pub open spec fn moves_of_placement(self, packing: PackingView, src: int, p: int) -> Seq<
        PackingView,
    > {
        let into = self.moves_into(packing, src, p, packing.boxes.len() as int);
        if self.opens_bins() && into.len() == 0 {
            into.push(
                packing.with_boxes(opened(packing.boxes, src, p, packing.instance.box_size)),
            )
        } else {
            into
        }
    }

    /// The moves of the placements before `upto` of the bin at `src`, in
    /// placement order.
    pub open spec fn moves_of_bin(self, packing: PackingView, src: int, upto: int) -> Seq<
        PackingView,
    >
        decreases upto,
    {
        if upto <= 0 {
            Seq::empty()
        } else {
            self.moves_of_bin(packing, src, upto - 1) + self.moves_of_placement(
                packing,
                src,
                upto - 1,
            )
        }
    }

    /// The moves of the placements of the bins before `upto`, in the order
    /// of the bins.
    pub open spec fn moves_upto(self, packing: PackingView, upto: int) -> Seq<PackingView>
        decreases upto,
    {
        if upto <= 0 {
            Seq::empty()
        } else {
            self.moves_upto(packing, upto - 1) + self.moves_of_bin(
                packing,
                upto - 1,
                packing.boxes[upto - 1].placements.len() as int,
            )
        }
    }

    /// Every packing that differs from `packing` by the move of one
    /// rectangle: for each bin in order, each of its placements in order,
    /// the moves of that placement.
    pub open spec fn moves(self, packing: PackingView) -> Seq<PackingView> {
        self.moves_upto(packing, packing.boxes.len() as int)
    }

    /// Searches `bin` for the position the rule allows `rect`.
    pub fn find(&self, bin: &BoxBin, rect: Rect) -> (found: Option<(u32, u32, bool)>)
        ensures
            found == self.position(bin@, rect),
    {
        match self {
            MoveRule::Strict => bin.find_position_in_box(rect),
            MoveRule::Tolerant { percent } => find_position_with_overlap(bin, rect, *percent),
        }
    }
}

/// A copy of `solution` in which the rectangle placed at `p` in the bin at
/// `src` stands at position `pos` of the bin at `tgt`. A source bin left empty
/// is removed.
pub fn relocate(solution: &RectangleSolution, src: usize, p: usize, tgt: usize, pos: (
    u32,
    u32,
    bool,
)) -> (moved: RectangleSolution)
    requires
        src < solution@.boxes.len(),
        p < solution@.boxes[src as int].placements.len(),
        tgt < solution@.boxes.len(),
        tgt != src,
    ensures
        moved@ == solution@.with_boxes(
            relocated(solution@.boxes, src as int, p as int, tgt as int, pos),
        ),
{
    let ghost boxes = solution@.boxes;
    let mut moved = solution.clone();
    assert(moved@.boxes[src as int] == moved.boxes@[src as int]@);
    let rect = moved.boxes[src].placements[p].rect;
    moved.boxes[src].placements.swap_remove(p);
    assert(bin_views(moved.boxes@) =~= taken_out(boxes, src as int, p as int));
    let ghost out = bin_views(moved.boxes@);
    assert(out[tgt as int] == moved.boxes@[tgt as int]@);
    let placement = Placement { rect, x: pos.0, y: pos.1, rotated: pos.2 };
    moved.boxes[tgt].placements.push(placement);
    assert(bin_views(moved.boxes@) =~= put_in(out, tgt as int, placement));
    let ghost put = bin_views(moved.boxes@);
    assert(put[src as int] == moved.boxes@[src as int]@);
    if moved.boxes[src].placements.is_empty() {
        moved.boxes.swap_remove(src);
        assert(bin_views(moved.boxes@) =~= put.update(src as int, put.last()).drop_last());
    }
    moved
}

/// A copy of `solution` in which the rectangle placed at `p` in the bin at
/// `src` stands at the lower-left corner of a new bin, added last. A source
/// bin left empty is removed.
pub fn open_bin(solution: &RectangleSolution, src: usize, p: usize) -> (moved: RectangleSolution)
    requires
        src < solution@.boxes.len(),
        p < solution@.boxes[src as int].placements.len(),
    ensures
        moved@ == solution@.with_boxes(
            opened(solution@.boxes, src as int, p as int, solution@.instance.box_size),
        ),
{
    let ghost boxes = solution@.boxes;
    let mut moved = solution.clone();
    assert(moved@.boxes[src as int] == moved.boxes@[src as int]@);
    let rect = moved.boxes[src].placements[p].rect;
    moved.boxes[src].placements.swap_remove(p);
    assert(bin_views(moved.boxes@) =~= taken_out(boxes, src as int, p as int));
    let ghost out = bin_views(moved.boxes@);
    assert(out[src as int] == moved.boxes@[src as int]@);
    if moved.boxes[src].placements.is_empty() {
        moved.boxes.swap_remove(src);
        assert(bin_views(moved.boxes@) =~= out.update(src as int, out.last()).drop_last());
    }
    let ghost kept = bin_views(moved.boxes@);
    let mut new_bin = BoxBin::new(moved.instance.box_size);
    new_bin.try_place(rect, 0, 0, false);
    moved.boxes.push(new_bin);
    assert(bin_views(moved.boxes@) =~= kept.push(
        BinView::empty(solution@.instance.box_size).place(at_origin(rect)),
    ));
    moved
}

/// Lists every packing that differs from `solution` by one move the rule
/// allows: for each bin in order and each of its placements in order, the move
/// into each other bin that takes the rectangle, in the order of the bins,
/// and, where the rule opens bins and no other bin takes it, the move into a
/// new bin.
pub fn relocation_moves(solution: &RectangleSolution, rule: MoveRule) -> (found: Vec<
    RectangleSolution,
>)
    ensures
        packing_views(found@) == rule.moves(solution@),
{
    let ghost packing = solution@;
    let mut found: Vec<RectangleSolution> = Vec::new();
    assert(packing_views(found@) =~= Seq::empty());
    let mut src: usize = 0;
    while src < solution.boxes.len()
        invariant
            src <= solution.boxes.len(),
            packing == solution@,
            packing_views(found@) == rule.moves_upto(packing, src as int),
        decreases solution.boxes.len() - src,
    {
        let ghost done = packing_views(found@);
        assert(packing.boxes[src as int] == solution.boxes@[src as int]@);
        assert(done + Seq::<PackingView>::empty() =~= done);
        let mut p: usize = 0;
        while p < solution.boxes[src].placements.len()
            invariant
                src < solution.boxes.len(),
                p <= solution.boxes[src as int].placements.len(),
                packing == solution@,
                packing.boxes[src as int] == solution.boxes@[src as int]@,
                packing_views(found@) == done + rule.moves_of_bin(packing, src as int, p as int),
            decreases solution.boxes[src as int].placements.len() - p,
        {
            let ghost base = packing_views(found@);
            let rect = solution.boxes[src].placements[p].rect;
            let mut any: bool = false;
            let mut tgt: usize = 0;
            assert(base + Seq::<PackingView>::empty() =~= base);
            while tgt < solution.boxes.len()
                invariant
                    src < solution.boxes.len(),
                    p < solution.boxes[src as int].placements.len(),
                    tgt <= solution.boxes.len(),
                    packing == solution@,
                    packing.boxes[src as int] == solution.boxes@[src as int]@,
                    rect == packing.boxes[src as int].placements[p as int].rect,
                    packing_views(found@) == base + rule.moves_into(
                        packing,
                        src as int,
                        p as int,
                        tgt as int,
                    ),
                    any == (rule.moves_into(packing, src as int, p as int, tgt as int).len() > 0),
                decreases solution.boxes.len() - tgt,
            {
                let ghost into = rule.moves_into(packing, src as int, p as int, tgt as int);
                assert(packing.boxes[tgt as int] == solution.boxes@[tgt as int]@);
                if tgt != src {
                    match rule.find(&solution.boxes[tgt], rect) {
                        Some(pos) => {
                            let moved = relocate(solution, src, p, tgt, pos);
                            let ghost prior = found@;
                            let ghost view = moved@;
                            found.push(moved);
                            any = true;
                            assert(packing_views(found@) =~= packing_views(prior).push(view));
                            assert(packing_views(found@) =~= base + into.push(view));
                        },
                        None => {},
                    }
                }
                tgt += 1;
            }
            let ghost into = rule.moves_into(
                packing,
                src as int,
                p as int,
                packing.boxes.len() as int,
            );
            let opens: bool = match rule {
                MoveRule::Strict => false,
                MoveRule::Tolerant { percent } => true,
            };
            if opens && !any {
                let moved = open_bin(solution, src, p);
                let ghost prior = found@;
                let ghost view = moved@;
                found.push(moved);
                assert(packing_views(found@) =~= packing_views(prior).push(view));
                assert(packing_views(found@) =~= base + into.push(view));
            }
            assert(packing_views(found@) =~= done + (rule.moves_of_bin(
                packing,
                src as int,
                p as int,
            ) + rule.moves_of_placement(packing, src as int, p as int)));
            p += 1;
        }
        assert(packing_views(found@) =~= rule.moves_upto(packing, src as int) + rule.moves_of_bin(
            packing,
            src as int,
            packing.boxes[src as int].placements.len() as int,
        ));
        src += 1;
    }
    found
}

} // verus!
