use vstd::prelude::*;
use crate::algorithms::traits::Solution;
use crate::problem::bin::BoxBin;
use crate::problem::first_fit::{
    first_fit_packing,
    lemma_first_accepting,
    lemma_first_fit_into_totals,
    place_first_fit,
};
use crate::problem::instance::{Instance, InstanceView};
use crate::problem::rect::{areas_of, Rect};
use crate::problem::solution::{
    bin_views,
    density_score,
    packing_cost_below,
    lemma_limits,
    placement_counts,
    total_area,
    total_count,
    used_areas,
    PackingView,
    AREA_LIMIT,
    RectangleSolution,
};
use crate::problem::sums::{lemma_sum_nonnegative, lemma_sum_take_next, sum};

verus! {

/// A packing given by the order in which the rectangles are packed by first
/// fit. The packing itself is not stored.
#[derive(Debug)]
pub struct PermutationSolution {
    pub instance: Instance,
    pub sequence: Vec<Rect>,
}

/// The mathematical content of a permutation solution.
pub struct PermutationView {
    pub instance: InstanceView,
    pub sequence: Seq<Rect>,
}

impl View for PermutationSolution {
    type V = PermutationView;

    open spec fn view(&self) -> PermutationView {
        PermutationView { instance: self.instance@, sequence: self.sequence@ }
    }
}

impl PermutationView {
    /// The packing that the sequence stands for: its rectangles packed in
    /// order by first fit into bins of the instance's side.
    pub open spec fn packing(self) -> PackingView {
        PackingView {
            instance: self.instance,
            boxes: first_fit_packing(self.instance.box_size, self.sequence),
            penalty_factor: None,
        }
    }

    /// The summed area of the rectangles of the sequence.
    pub open spec fn sequence_area(self) -> int {
        sum(areas_of(self.sequence))
    }

    /// The cost of the packing that the sequence stands for.
    pub open spec fn cost(self) -> (usize, i64) {
        self.packing().cost()
    }

    /// The cost can be computed in 64-bit arithmetic.
    pub open spec fn in_range(self) -> bool {
        self.sequence_area() * self.sequence_area() <= i64::MAX
    }
}

/// The first-fit packing of a sequence holds each of its rectangles once: it
/// has the summed area of the sequence and as many placements as the sequence
/// has rectangles, and none of its bins is empty.
pub proof fn lemma_first_fit_packing_totals(capacity: u32, rects: Seq<Rect>)
    ensures
        total_area(first_fit_packing(capacity, rects)) == sum(areas_of(rects)),
        total_count(first_fit_packing(capacity, rects)) == rects.len(),
        first_fit_packing(capacity, rects).len() <= rects.len(),
        forall|b: int|
            0 <= b < first_fit_packing(capacity, rects).len() ==> (#[trigger] first_fit_packing(
                capacity,
                rects,
            )[b]).placements.len() > 0,
    decreases rects.len(),
{
    if rects.len() == 0 {
        assert(used_areas(Seq::empty()) =~= Seq::<int>::empty());
        assert(placement_counts(Seq::empty()) =~= Seq::<int>::empty());
        assert(areas_of(rects) =~= Seq::<int>::empty());
    } else {
        let front = rects.drop_last();
        lemma_first_fit_packing_totals(capacity, front);
        lemma_first_fit_into_totals(first_fit_packing(capacity, front), rects.last(), capacity);
        lemma_first_accepting(first_fit_packing(capacity, front), rects.last(), 0);
        assert(areas_of(rects).drop_last() =~= areas_of(front));
    }
}

/// The cost of a permutation solution is the cost of the packing it stands
/// for, and depends on nothing but the instance and the sequence: two
/// solutions with the same content have the same cost.
pub proof fn lemma_cost_is_that_of_the_packing(a: PermutationSolution, b: PermutationSolution)
    requires
        a@ == b@,
    ensures
        a.cost_of() == b.cost_of(),
        a.cost_of() == a@.packing().cost(),
        a.cost_of() == (
            first_fit_packing(a@.instance.box_size, a@.sequence).len() as usize,
            a@.packing().score() as i64,
        ),
{
}

/// Packs `sequence` by first fit into bins of side `box_size`.
pub fn pack_first_fit(box_size: u32, sequence: &Vec<Rect>) -> (boxes: Vec<BoxBin>)
    ensures
        bin_views(boxes@) == first_fit_packing(box_size, sequence@),
{
    let mut boxes: Vec<BoxBin> = Vec::new();
    assert(sequence@.take(0) =~= Seq::<Rect>::empty());
    assert(bin_views(boxes@) =~= Seq::empty());
    let mut i: usize = 0;
    while i < sequence.len()
        invariant
            i <= sequence.len(),
            bin_views(boxes@) == first_fit_packing(box_size, sequence@.take(i as int)),
        decreases sequence.len() - i,
    {
        let rect = sequence[i];
        proof {
            assert(sequence@.take(i + 1).drop_last() =~= sequence@.take(i as int));
            assert(sequence@.take(i + 1).last() == rect);
        }
        place_first_fit(&mut boxes, rect, box_size);
        i += 1;
    }
    assert(sequence@.take(sequence@.len() as int) =~= sequence@);
    boxes
}

impl PermutationSolution {
    /// The solution that packs the rectangles of `sequence` in that order.
    pub fn new(instance: Instance, sequence: Vec<Rect>) -> (solution: Self)
        ensures
            solution@ == (PermutationView { instance: instance@, sequence: sequence@ }),
    {
        Self { instance, sequence }
    }

    /// Whether the cost of the solution can be computed in 64-bit
    /// arithmetic, as `cost` and the neighborhood require.
    pub fn cost_in_range(&self) -> (fits: bool)
        ensures
            fits == self@.in_range(),
    {
        let ghost areas = areas_of(self@.sequence);
        proof {
            assert forall|i: int| 0 <= i < areas.len() implies 0 <= #[trigger] areas[i] by {
                assert(0 <= self@.sequence[i].width * self@.sequence[i].height)
                    by (nonlinear_arith);
            }
            lemma_sum_nonnegative(areas);
            lemma_limits(sum(areas), 0);
            assert(areas.take(0) =~= Seq::<int>::empty());
        }
        let mut total: u64 = 0;
        let mut i: usize = 0;
        while i < self.sequence.len()
            invariant
                i <= self.sequence.len(),
                areas == areas_of(self@.sequence),
                total == sum(areas.take(i as int)),
                total <= AREA_LIMIT,
                sum(areas) * sum(areas) <= i64::MAX <==> sum(areas) <= AREA_LIMIT,
                forall|count: int|
                    0 <= count <= areas.len() ==> 0 <= #[trigger] sum(areas.take(count)) <= sum(
                        areas,
                    ),
            decreases self.sequence.len() - i,
        {
            let rect = self.sequence[i];
            proof {
                lemma_sum_take_next(areas, i as int);
                assert(sum(areas.take(i + 1)) <= sum(areas));
                assert(areas[i as int] == rect.spec_area());
                assert(rect.width * rect.height <= 0xFFFF_FFFF * 0xFFFF_FFFF) by (nonlinear_arith)
                    requires
                        0 <= rect.width <= 0xFFFF_FFFF,
                        0 <= rect.height <= 0xFFFF_FFFF,
                ;
            }
            let area: u64 = rect.width as u64 * rect.height as u64;
            if area > AREA_LIMIT - total {
                return false;
            }
            total = total + area;
            i += 1;
        }
        proof {
            assert(areas.take(areas.len() as int) =~= areas);
        }
        true
    }

    /// The packing that the sequence stands for.
    pub fn packing(&self) -> (packing: RectangleSolution)
        ensures
            packing@ == self@.packing(),
            packing@.cost() == self@.cost(),
            self@.in_range() ==> packing@.in_range(),
    {
        proof {
            lemma_first_fit_packing_totals(self@.instance.box_size, self@.sequence);
        }
        let boxes = pack_first_fit(self.instance.box_size, &self.sequence);
        RectangleSolution { instance: self.instance.clone(), boxes, penalty_factor: None }
    }
}

impl Clone for PermutationSolution {
    fn clone(&self) -> (copy: Self)
        ensures
            copy@ == self@,
    {
        PermutationSolution { instance: self.instance.clone(), sequence: self.sequence.clone() }
    }
}

impl Solution for PermutationSolution {
    type Cost = (usize, i64);

    open spec fn valid(&self) -> bool {
        self@.in_range()
    }

    open spec fn cost_of(&self) -> (usize, i64) {
        self@.cost()
    }

    open spec fn cost_below(a: (usize, i64), b: (usize, i64)) -> bool {
        packing_cost_below(a, b)
    }

    open spec fn cost_rank(c: (usize, i64)) -> nat {
        (c.0 * 0x1_0000_0000_0000_0000 + (c.1 + 0x8000_0000_0000_0000)) as nat
    }

    proof fn lemma_better_cost_ranks_lower(a: (usize, i64), b: (usize, i64)) {
    }

    fn cost(&self) -> (c: (usize, i64)) {
        let boxes = pack_first_fit(self.instance.box_size, &self.sequence);
        proof {
            lemma_first_fit_packing_totals(self@.instance.box_size, self@.sequence);
        }
        let num_boxes: usize = boxes.len();
        let score: i64 = density_score(&boxes);
        (num_boxes, score)
    }

    fn cost_less(a: &(usize, i64), b: &(usize, i64)) -> (less: bool) {
        a.0 < b.0 || (a.0 == b.0 && a.1 < b.1)
    }
}

} // verus!
