use vstd::prelude::*;
use crate::algorithms::local_search::{descent, search_result, solve};
use crate::algorithms::traits::{Neighborhood, Solution};
use crate::problem::bin::{BinView, BoxBin};
use crate::problem::coverage::{lemma_placed_push, lemma_rects_of_empty, lemma_rects_with, placed_rects};
use crate::problem::first_fit::{at_origin, lemma_totals_push};
use crate::problem::instance::{Instance, InstanceView};
use crate::problem::local_search::{
    lemma_geometric_descent,
    lemma_tolerant_descent,
    GeometricNeighborhood,
    OverlappingNeighborhood,
};
use crate::problem::measure::lemma_used_area_with;
use crate::problem::move_laws::conserved;
use crate::problem::rect::{areas_of, Rect};
use crate::problem::solution::{
    box_weight,
    lemma_packing_measures,
    magnitude,
    placement_counts,
    total_area,
    total_count,
    used_areas,
    PackingView,
    RectangleSolution,
};
use crate::problem::sums::sum;

verus! {

/// The number of phases of the annealing schedule.
pub const PHASES: u32 = 10;

/// The penalty factor of the first phase.
pub const INITIAL_PENALTY: i64 = 10;

/// The factor by which the penalty factor grows from phase to phase.
pub const PENALTY_GROWTH: i64 = 5;

/// The penalty factor of the last phase, the largest with which a cost is
/// computed.
pub const LAST_PENALTY: i64 = 19_531_250;

/// The bin that holds `rect` alone at its lower-left corner, or nothing if the
/// rectangle does not fit.
pub open spec fn single_bin(capacity: u32, rect: Rect) -> BinView {
    BinView::empty(capacity).place(at_origin(rect))
}

/// The packing that gives each of the first `count` rectangles of the
/// instance a bin of its own.
pub open spec fn single_bins(instance: InstanceView, count: int) -> Seq<BinView> {
    Seq::new(count as nat, |i: int| single_bin(instance.box_size, instance.rects[i]))
}

/// The packing that gives each rectangle of the instance a bin of its own.
pub open spec fn trivial_packing(instance: InstanceView) -> PackingView {
    PackingView {
        instance,
        boxes: single_bins(instance, instance.rects.len() as int),
        penalty_factor: None,
    }
}

/// The penalty factor with which the given phase runs.
pub open spec fn penalty_of_phase(phase: nat) -> int
    decreases phase,
{
    if phase == 0 {
        INITIAL_PENALTY as int
    } else {
        PENALTY_GROWTH * penalty_of_phase((phase - 1) as nat)
    }
}

/// The overlap tolerance, in hundredths, with which the given phase runs: it
/// falls in equal steps from a hundred towards zero.
pub open spec fn tolerance_of_phase(phase: nat) -> u32 {
    if phase < PHASES {
        (100int - (100int / PHASES as int) * phase) as u32
    } else {
        0
    }
}

/// The packing scored with the given penalty factor, or with none.
pub open spec fn scored_with(packing: PackingView, penalty_factor: Option<i64>) -> PackingView {
    PackingView { penalty_factor, ..packing }
}

/// One phase: from `from`, local search under the phase's tolerance reaches
/// a local optimum, and `to` is that optimum with its penalty factor grown.
pub open spec fn phase_step(phase: nat, from: RectangleSolution, to: RectangleSolution) -> bool {
    exists|end: RectangleSolution| #[trigger]
        search_result(
            &OverlappingNeighborhood { max_overlap_percent: tolerance_of_phase(phase) },
            from,
            end,
        ) && to@ == scored_with(
            end@,
            Some((PENALTY_GROWTH * penalty_of_phase(phase)) as i64),
        )
}

/// The stage after the one at `k` follows from it by the phase `k`.
pub open spec fn phase_step_at(stages: Seq<RectangleSolution>, k: int) -> bool {
    phase_step(k as nat, stages[k], stages[k + 1])
}

/// `stages` are the solutions at the start of each phase and after the last:
/// the first is `start` with the initial penalty factor, each further one
/// follows from the one before by a phase, and with each the penalty factor
/// has grown.
pub open spec fn annealing_schedule(start: PackingView, stages: Seq<RectangleSolution>) -> bool {
    &&& stages.len() == PHASES + 1
    &&& stages[0]@ == scored_with(start, Some(INITIAL_PENALTY))
    &&& forall|k: int|
        0 <= k <= PHASES ==> (#[trigger] stages[k])@.penalty_factor == Some(
            penalty_of_phase(k as nat) as i64,
        )
    &&& forall|k: int| 0 <= k < PHASES ==> #[trigger] phase_step_at(stages, k)
}

/// The whole search: the phases of the schedule, then, with the penalty
/// factor cleared, a local search in the geometric neighborhood that ends in
/// `result`. That last search adds no bin, and where the phases end without
/// overlap, it ends without overlap.
pub open spec fn annealing_result(start: PackingView, result: RectangleSolution) -> bool {
    exists|stages: Seq<RectangleSolution>, cleared: RectangleSolution| #[trigger]
        annealing_schedule(start, stages) && cleared@ == scored_with(stages.last()@, None)
            && #[trigger] search_result(&GeometricNeighborhood, cleared, result)
            && result@.boxes.len() <= cleared@.boxes.len() && (cleared@.overlap_free()
            ==> result@.overlap_free())
}

/// The bins that hold the first rectangles of an instance, one each, hold
/// each of these rectangles once, alone in its bin and inside it.
pub proof fn lemma_single_bins(instance: InstanceView, count: int)
    requires
        instance.fits(),
        0 <= count <= instance.rects.len(),
    ensures
        single_bins(instance, count).len() == count,
        forall|b: int|
            0 <= b < count ==> (#[trigger] single_bins(instance, count)[b]).placements == seq![
                at_origin(instance.rects[b]),
            ] && single_bins(instance, count)[b].packed(),
        total_area(single_bins(instance, count)) == sum(areas_of(instance.rects.take(count))),
        total_count(single_bins(instance, count)) == count,
        placed_rects(single_bins(instance, count)) == instance.rects.take(count).to_multiset(),
    decreases count,
{
    broadcast use vstd::multiset::group_multiset_axioms;

    let capacity = instance.box_size;
    let boxes = single_bins(instance, count);
    assert forall|b: int| 0 <= b < count implies (#[trigger] boxes[b]).placements == seq![
        at_origin(instance.rects[b]),
    ] && boxes[b].packed() by {
        let rect = instance.rects[b];
        assert(rect.fits_within(capacity));
        assert(BinView::empty(capacity).accepts(at_origin(rect)));
        assert(boxes[b].placements =~= seq![at_origin(rect)]);
        crate::problem::bin::lemma_accepted_placement_keeps_packed(
            BinView::empty(capacity),
            at_origin(rect),
        );
    }
    if count == 0 {
        assert(used_areas(boxes) =~= Seq::<int>::empty());
        assert(placement_counts(boxes) =~= Seq::<int>::empty());
        assert(areas_of(instance.rects.take(0)) =~= Seq::<int>::empty());
        assert(instance.rects.take(0) =~= Seq::<Rect>::empty());
        vstd::seq_lib::to_multiset_len(instance.rects.take(0));
        vstd::multiset::lemma_multiset_empty_len(instance.rects.take(0).to_multiset());
    } else {
        lemma_single_bins(instance, count - 1);
        let front = single_bins(instance, count - 1);
        let rect = instance.rects[count - 1];
        let last = single_bin(capacity, rect);
        assert(boxes =~= front.push(last));
        assert(rect.fits_within(capacity));
        assert(BinView::empty(capacity).accepts(at_origin(rect)));
        assert(last == BinView::empty(capacity).with(at_origin(rect)));
        lemma_used_area_with(BinView::empty(capacity), at_origin(rect));
        assert(BinView::empty(capacity).rect_areas() =~= Seq::<int>::empty());
        assert(sum(Seq::<int>::empty()) == 0);
        lemma_totals_push(front, last);
        lemma_rects_of_empty(BinView::empty(capacity));
        lemma_rects_with(BinView::empty(capacity), at_origin(rect));
        lemma_placed_push(front, last);
        assert(instance.rects.take(count) =~= instance.rects.take(count - 1).push(rect));
        assert(areas_of(instance.rects.take(count)).drop_last() =~= areas_of(
            instance.rects.take(count - 1),
        ));
        vstd::seq_lib::to_multiset_build(instance.rects.take(count - 1), rect);
        assert(placed_rects(boxes) =~= instance.rects.take(count).to_multiset());
    }
}

/// The trivial packing of an instance whose rectangles fit the bins places
/// every rectangle of the instance once, each alone in a bin. It is packed,
/// has no overlap and no empty bin, and its total area is the summed area of
/// the rectangles.
pub proof fn lemma_trivial_packing(instance: InstanceView)
    requires
        instance.fits(),
    ensures
        trivial_packing(instance).boxes.len() == instance.rects.len(),
        trivial_packing(instance).packed(),
        trivial_packing(instance).overlap_free(),
        trivial_packing(instance).no_empty_bin(),
        trivial_packing(instance).rects_fit(),
        placed_rects(trivial_packing(instance).boxes) == instance.rects.to_multiset(),
        total_area(trivial_packing(instance).boxes) == sum(areas_of(instance.rects)),
        total_count(trivial_packing(instance).boxes) == instance.rects.len(),
{
    let n = instance.rects.len() as int;
    let packing = trivial_packing(instance);
    lemma_single_bins(instance, n);
    assert(instance.rects.take(n) =~= instance.rects);
    assert forall|b: int| 0 <= b < packing.boxes.len() implies (
    #[trigger] packing.boxes[b]).overlap_free() && packing.boxes[b].placements.len() > 0 by {
        assert(packing.boxes[b].placements == seq![at_origin(instance.rects[b])]);
    }
    assert forall|b: int, i: int|
        0 <= b < packing.boxes.len() && 0 <= i < packing.boxes[b].placements.len() implies (
    #[trigger] packing.boxes[b].placements[i]).rect.fits_within(instance.box_size) by {
        assert(packing.boxes[b].placements == seq![at_origin(instance.rects[b])]);
        assert(instance.rects[b].fits_within(instance.box_size));
    }
}

/// A packing whose cost can be computed under a penalty factor is one whose
/// cost can be computed under any factor of no larger magnitude, and without
/// a factor.
pub proof fn lemma_in_range_under_smaller_factor(packing: PackingView, large: i64, small: i64)
    requires
        scored_with(packing, Some(large)).in_range(),
        magnitude(small as int) <= magnitude(large as int),
    ensures
        scored_with(packing, Some(small)).in_range(),
        scored_with(packing, None).in_range(),
{
    lemma_packing_measures(packing.boxes);
    let area = total_area(packing.boxes);
    let count = total_count(packing.boxes);
    let weight = box_weight(packing.instance.box_size);
    let ms = magnitude(small as int);
    let ml = magnitude(large as int);
    assert(0 <= count * area * ms <= count * area * ml) by (nonlinear_arith)
        requires
            0 <= count,
            0 <= area,
            0 <= ms <= ml,
    ;
    assert(0 <= area * area) by (nonlinear_arith);
    assert(0 <= count * weight) by (nonlinear_arith)
        requires
            0 <= count,
            weight == packing.instance.box_size * packing.instance.box_size
                * packing.instance.box_size * packing.instance.box_size + 1,
            0 <= packing.instance.box_size,
    ;
}

/// The packing that gives each rectangle of `instance` a bin of its own, the
/// rectangle at the bin's lower-left corner. A rectangle that does not fit
/// leaves its bin empty.
pub fn create_trivial_solution(instance: &Instance) -> (solution: RectangleSolution)
    ensures
        solution@ == trivial_packing(instance@),
        instance@.fits() ==> solution@.packed() && placed_rects(solution@.boxes)
            == instance@.rects.to_multiset(),
{
    proof {
        if instance@.fits() {
            lemma_trivial_packing(instance@);
        }
    }
    let mut sol = RectangleSolution::new(instance.clone());
    let mut i: usize = 0;
    assert(sol@.boxes =~= single_bins(instance@, 0));
    while i < instance.rects.len()
        invariant
            i <= instance.rects.len(),
            sol@.instance == instance@,
            sol@.penalty_factor is None,
            sol@.boxes == single_bins(instance@, i as int),
        decreases instance.rects.len() - i,
    {
        let mut b = BoxBin::new(instance.box_size);
        b.try_place(instance.rects[i], 0, 0, false);
        let ghost prior = sol@.boxes;
        let ghost added = b@;
        assert(added == single_bin(instance@.box_size, instance@.rects[i as int]));
        sol.boxes.push(b);
        assert(sol@.boxes =~= prior.push(added));
        assert(sol@.boxes =~= single_bins(instance@, i + 1));
        i += 1;
    }
    sol
}

/// Local search that tolerates overlap at a price: it runs in phases, each
/// to a local optimum, with the tolerance falling and the penalty growing
/// from phase to phase, and ends with a local search in the geometric
/// neighborhood, without penalty factor.
pub fn run_overlapping_ls(start_sol: RectangleSolution) -> (result: RectangleSolution)
    requires
        scored_with(start_sol@, Some(LAST_PENALTY)).in_range(),
    ensures
        annealing_result(start_sol@, result),
        result@.penalty_factor is None,
        result.valid(),
        result@.instance == start_sol@.instance,
        placed_rects(result@.boxes) == placed_rects(start_sol@.boxes),
        result@.boxes.len() <= total_count(start_sol@.boxes),
{
    let ghost start = start_sol@;
    let mut current_sol = start_sol.with_penalty(10);
    let mut percent: u32 = 100;
    let steps: u32 = 10;
    let mut phase: u32 = 0;
    let ghost mut stages: Seq<RectangleSolution> = seq![current_sol];
    proof {
        assert(penalty_of_phase(0) == 10);
    }
    while phase < steps
        invariant
            phase <= steps,
            steps == PHASES,
            percent == tolerance_of_phase(phase as nat) || phase == steps,
            stages.len() == phase + 1,
            stages.last() == current_sol,
            stages[0]@ == scored_with(start, Some(INITIAL_PENALTY)),
            forall|k: int|
                0 <= k <= phase ==> (#[trigger] stages[k])@.penalty_factor == Some(
                    penalty_of_phase(k as nat) as i64,
                ),
            forall|k: int| 0 <= k < phase ==> #[trigger] phase_step_at(stages, k),
            scored_with(current_sol@, Some(LAST_PENALTY)).in_range(),
            conserved(scored_with(start, None), scored_with(current_sol@, None)),
        decreases steps - phase,
    {
        let neigh = OverlappingNeighborhood { max_overlap_percent: percent };
        let ghost from = current_sol;
        proof {
            lemma_penalties(phase as nat);
            lemma_in_range_under_smaller_factor(
                current_sol@,
                LAST_PENALTY,
                penalty_of_phase(phase as nat) as i64,
            );
            assert(scored_with(current_sol@, current_sol@.penalty_factor) == current_sol@);
        }
        current_sol = solve(current_sol, &neigh);
        let ghost end = current_sol;
        proof {
            let path = choose|path: Seq<RectangleSolution>| #[trigger]
                descent(&neigh, path) && path.first() == from && path.last() == end;
            lemma_tolerant_descent(neigh, path, path.len() - 1);
            assert(conserved(from@, end@));
        }
        percent = if percent >= 100 / steps { percent - 100 / steps } else { 0 };
        if let Some(p) = current_sol.penalty_factor {
            current_sol.penalty_factor = Some(p * 5);
        }
        proof {
            let grown = stages.push(current_sol);
            assert(current_sol@ == scored_with(
                end@,
                Some((PENALTY_GROWTH * penalty_of_phase(phase as nat)) as i64),
            ));
            assert(phase_step(phase as nat, from, current_sol));
            lemma_penalties((phase + 1) as nat);
            assert forall|k: int| 0 <= k <= phase + 1 implies (
            #[trigger] grown[k])@.penalty_factor == Some(penalty_of_phase(k as nat) as i64) by {
                if k <= phase {
                    assert(grown[k] == stages[k]);
                }
            }
            assert forall|k: int| 0 <= k < phase + 1 implies #[trigger] phase_step_at(grown, k) by {
                if k < phase {
                    assert(grown[k] == stages[k]);
                    assert(grown[k + 1] == stages[k + 1]);
                    assert(phase_step_at(stages, k));
                }
            }
            stages = grown;
        }
        phase += 1;
    }
    let mut strict_sol = current_sol;
    strict_sol.penalty_factor = None;
    let ghost cleared = strict_sol;
    proof {
        lemma_in_range_under_smaller_factor(current_sol@, LAST_PENALTY, 0);
        assert(cleared@ == scored_with(stages.last()@, None));
        assert(annealing_schedule(start, stages));
    }
    let result = solve(strict_sol, &GeometricNeighborhood);
    proof {
        let path = choose|path: Seq<RectangleSolution>| #[trigger]
            descent(&GeometricNeighborhood, path) && path.first() == cleared && path.last()
                == result;
        lemma_geometric_descent(path, path.len() - 1);
        crate::problem::solution::lemma_bins_at_most_placements(result@.boxes);
        assert(annealing_schedule(start, stages) && cleared@ == scored_with(stages.last()@, None)
            && search_result(&GeometricNeighborhood, cleared, result));
    }
    result
}

/// The penalty factors of the schedule are positive and grow, up to the
/// factor of the last phase, and five times that after it.
pub proof fn lemma_penalties(phase: nat)
    requires
        phase <= PHASES,
    ensures
        0 < penalty_of_phase(phase) <= LAST_PENALTY * PENALTY_GROWTH,
        phase < PHASES ==> penalty_of_phase(phase) <= LAST_PENALTY,
        phase == PHASES - 1 ==> penalty_of_phase(phase) == LAST_PENALTY,
{
    assert(penalty_of_phase(0) == 10);
    assert(penalty_of_phase(1) == 50);
    assert(penalty_of_phase(2) == 250);
    assert(penalty_of_phase(3) == 1_250);
    assert(penalty_of_phase(4) == 6_250);
    assert(penalty_of_phase(5) == 31_250);
    assert(penalty_of_phase(6) == 156_250);
    assert(penalty_of_phase(7) == 781_250);
    assert(penalty_of_phase(8) == 3_906_250);
    assert(penalty_of_phase(9) == 19_531_250);
    assert(penalty_of_phase(10) == 97_656_250);
}

} // verus!
