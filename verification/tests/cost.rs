use optalgos_program::algorithms::traits::Solution;
use optalgos_program::problem::annealing::create_trivial_solution;
use optalgos_program::problem::bin::BoxBin;
use optalgos_program::problem::instance::Instance;
use optalgos_program::problem::permutation::PermutationSolution;
use optalgos_program::problem::placement::Placement;
use optalgos_program::problem::rect::Rect;
use optalgos_program::problem::solution::{
    density_score, overlap_score, weight_of, RectangleSolution,
};

fn instance(capacity: u32, sizes: &[(u32, u32)]) -> Instance {
    let rects = sizes.iter().enumerate().map(|(i, s)| Rect::new(i, s.0, s.1)).collect();
    Instance::new(capacity, rects)
}

fn overlapping_pair() -> RectangleSolution {
    let mut solution = RectangleSolution::new(instance(10, &[(4, 4), (4, 4)]));
    let mut bin = BoxBin::new(10);
    bin.placements.push(Placement { rect: Rect::new(0, 4, 4), x: 0, y: 0, rotated: false });
    bin.placements.push(Placement { rect: Rect::new(1, 4, 4), x: 2, y: 2, rotated: false });
    solution.boxes.push(bin);
    solution
}

#[test]
fn instance_new_keeps_its_arguments() {
    let inst = instance(10, &[(4, 6), (6, 4)]);
    assert_eq!(inst.box_size, 10);
    assert_eq!(inst.rects, vec![Rect::new(0, 4, 6), Rect::new(1, 6, 4)]);
}

#[test]
fn new_solution_has_no_bins_and_no_penalty() {
    let solution = RectangleSolution::new(instance(10, &[(4, 6)]));
    assert!(solution.boxes.is_empty());
    assert_eq!(solution.penalty_factor, None);
    assert_eq!(solution.instance.rects.len(), 1);
    assert_eq!(solution.cost(), (0, 0));
}

#[test]
fn with_penalty_sets_the_factor_only() {
    let solution = overlapping_pair().with_penalty(7);
    assert_eq!(solution.penalty_factor, Some(7));
    assert_eq!(solution.boxes.len(), 1);
    assert_eq!(solution.boxes[0].placements.len(), 2);
    assert_eq!(solution.instance.box_size, 10);
}

#[test]
fn cost_without_penalty_is_bin_count_and_negated_density() {
    let trivial = create_trivial_solution(&instance(10, &[(10, 10), (10, 10), (10, 10)]));
    assert_eq!(trivial.cost(), (3, -30000));
    let mixed = create_trivial_solution(&instance(10, &[(4, 6), (6, 4), (1, 2)]));
    assert_eq!(mixed.cost(), (3, -(576 + 576 + 4)));
    // overlap does not count without a penalty factor
    assert_eq!(overlapping_pair().cost(), (1, -1024));
}

#[test]
fn denser_bins_cost_less_at_equal_bin_count() {
    let inst = instance(10, &[(5, 10), (5, 10), (5, 10)]);
    let mut even = RectangleSolution::new(inst.clone());
    let mut skewed = RectangleSolution::new(inst);
    for solution in [&mut even, &mut skewed] {
        solution.boxes.push(BoxBin::new(10));
        solution.boxes.push(BoxBin::new(10));
        solution.boxes.push(BoxBin::new(10));
    }
    for (i, bin) in even.boxes.iter_mut().enumerate() {
        bin.try_place(Rect::new(i, 5, 10), 0, 0, false);
    }
    skewed.boxes[0].try_place(Rect::new(0, 5, 10), 0, 0, false);
    skewed.boxes[0].try_place(Rect::new(1, 5, 10), 5, 0, false);
    skewed.boxes[2].try_place(Rect::new(2, 5, 10), 0, 0, false);
    assert_eq!(even.cost(), (3, -7500));
    assert_eq!(skewed.cost(), (3, -12500));
    assert!(RectangleSolution::cost_less(&skewed.cost(), &even.cost()));
}

#[test]
fn cost_with_penalty_is_one_scalar() {
    let solution = overlapping_pair().with_penalty(10);
    // overlap 4 times the factor, less 32 squared, plus one bin of weight 10^4 + 1
    assert_eq!(solution.cost(), (0, 40 - 1024 + 10001));
    let trivial =
        create_trivial_solution(&instance(10, &[(10, 10), (10, 10), (10, 10)])).with_penalty(10);
    assert_eq!(trivial.cost(), (0, 3 * 10001 - 30000));
    let negative = overlapping_pair().with_penalty(-3);
    assert_eq!(negative.cost(), (0, -12 - 1024 + 10001));
}

#[test]
fn one_bin_less_outweighs_any_density() {
    let spread =
        create_trivial_solution(&instance(10, &[(10, 10), (10, 10)])).with_penalty(0);
    let mut stacked = RectangleSolution::new(instance(10, &[(10, 10), (10, 10)]));
    let mut bin = BoxBin::new(10);
    bin.placements.push(Placement { rect: Rect::new(0, 10, 10), x: 0, y: 0, rotated: false });
    bin.placements.push(Placement { rect: Rect::new(1, 10, 10), x: 0, y: 0, rotated: false });
    stacked.boxes.push(bin);
    let stacked = stacked.with_penalty(0);
    assert_eq!(spread.cost(), (0, 2 * 10001 - 20000));
    assert_eq!(stacked.cost(), (0, 10001 - 40000));
    assert!(RectangleSolution::cost_less(&stacked.cost(), &spread.cost()));
}

#[test]
fn cost_less_is_lexicographic() {
    assert!(RectangleSolution::cost_less(&(1, 5), &(2, -5)));
    assert!(!RectangleSolution::cost_less(&(2, -5), &(1, 5)));
    assert!(RectangleSolution::cost_less(&(2, -6), &(2, -5)));
    assert!(!RectangleSolution::cost_less(&(2, -5), &(2, -5)));
    assert!(!RectangleSolution::cost_less(&(2, -4), &(2, -5)));
    assert!(PermutationSolution::cost_less(&(0, i64::MIN), &(0, i64::MAX)));
    assert!(!PermutationSolution::cost_less(&(3, 0), &(3, 0)));
}

#[test]
fn score_helpers_give_their_parts() {
    let solution = overlapping_pair();
    assert_eq!(density_score(&solution.boxes), -1024);
    assert_eq!(overlap_score(&solution.boxes), 4);
    assert_eq!(weight_of(10), 10001);
    assert_eq!(weight_of(0), 1);
    assert_eq!(weight_of(55108), 55108i64.pow(4) + 1);
}

#[test]
fn trivial_solution_gives_each_rectangle_its_own_bin() {
    let inst = instance(10, &[(4, 6), (6, 4), (10, 10)]);
    let trivial = create_trivial_solution(&inst);
    assert_eq!(trivial.boxes.len(), 3);
    assert_eq!(trivial.penalty_factor, None);
    for (i, bin) in trivial.boxes.iter().enumerate() {
        assert_eq!(bin.capacity, 10);
        assert_eq!(bin.placements.len(), 1);
        assert_eq!(
            bin.placements[0],
            Placement { rect: inst.rects[i], x: 0, y: 0, rotated: false }
        );
    }
}

#[test]
fn permutation_cost_is_the_cost_of_its_packing() {
    let inst = instance(10, &[(4, 6), (6, 4), (10, 10), (3, 3), (6, 2)]);
    let solution = PermutationSolution::new(inst.clone(), inst.rects.clone());
    let packing = solution.packing();
    assert_eq!(packing.penalty_factor, None);
    assert_eq!(solution.cost(), packing.cost());
    assert_eq!(solution.cost(), solution.cost());
    assert_eq!(solution.clone().cost(), solution.cost());
    // the first two side by side, the small square in the corner they leave,
    // the flat rectangle turned beside it; the full square alone
    assert_eq!(packing.boxes.len(), 2);
    assert_eq!(packing.boxes[1].placements.len(), 1);
    assert_eq!(packing.boxes[1].placements[0].rect.id, 2);
    let first: Vec<(usize, u32, u32, bool)> = packing.boxes[0]
        .placements
        .iter()
        .map(|p| (p.rect.id, p.x, p.y, p.rotated))
        .collect();
    assert_eq!(
        first,
        vec![(0, 0, 0, false), (1, 4, 0, false), (3, 4, 4, false), (4, 7, 4, true)]
    );
    assert_eq!(solution.cost(), (2, -(69 * 69 + 10000)));
}

#[test]
fn permutation_cost_depends_on_the_order() {
    let inst = instance(10, &[(6, 10), (5, 10), (4, 10), (5, 10)]);
    let in_order = PermutationSolution::new(inst.clone(), inst.rects.clone());
    let mut sequence = inst.rects.clone();
    sequence.swap(0, 1);
    let swapped = PermutationSolution::new(inst.clone(), sequence);
    assert_eq!(in_order.cost(), (2, -20000));
    assert_eq!(swapped.cost(), (3, -(8100 + 3600 + 2500)));
    let all_full = instance(10, &[(10, 10), (10, 10), (10, 10)]);
    let full = PermutationSolution::new(all_full.clone(), all_full.rects.clone());
    assert_eq!(full.cost(), (3, -30000));
}

#[test]
fn packing_of_a_sequence_places_by_first_fit_in_order() {
    let inst = instance(10, &[(10, 4), (7, 7), (10, 6)]);
    let solution = PermutationSolution::new(inst.clone(), inst.rects.clone());
    let packing = solution.packing();
    // the square does not fit above the first rectangle, the third does
    assert_eq!(packing.boxes.len(), 2);
    assert_eq!(packing.boxes[0].placements.len(), 2);
    assert_eq!(packing.boxes[0].placements[1].rect.id, 2);
    assert_eq!(
        (packing.boxes[0].placements[1].x, packing.boxes[0].placements[1].y),
        (0, 4)
    );
    assert_eq!(packing.boxes[1].placements[0].rect.id, 1);
    assert_eq!(solution.cost(), (2, -(10000 + 2401)));
    // turned, a rectangle takes the room above
    let turned = instance(10, &[(10, 4), (6, 10)]);
    let both = PermutationSolution::new(turned.clone(), turned.rects.clone()).packing();
    assert_eq!(both.boxes.len(), 1);
    let second = both.boxes[0].placements[1];
    assert_eq!((second.rect.id, second.x, second.y, second.rotated), (1, 0, 4, true));
}

#[test]
fn empty_sequence_costs_nothing() {
    let inst = instance(10, &[]);
    let solution = PermutationSolution::new(inst, Vec::new());
    assert_eq!(solution.cost(), (0, 0));
    assert!(solution.packing().boxes.is_empty());
}

#[test]
fn small_packings_are_in_range() {
    let trivial = create_trivial_solution(&instance(10, &[(10, 10), (10, 10), (10, 10)]));
    assert!(trivial.cost_in_range());
    assert!(trivial.clone().with_penalty(10).cost_in_range());
    assert!(trivial.clone().with_penalty(-10).cost_in_range());
    assert!(trivial.clone().with_penalty(i64::MAX / 1000).cost_in_range());
    assert!(!trivial.clone().with_penalty(i64::MAX / 800).cost_in_range());
    assert!(!trivial.clone().with_penalty(i64::MIN).cost_in_range());
    assert!(RectangleSolution::new(instance(10, &[])).cost_in_range());
    assert!(RectangleSolution::new(instance(10, &[])).with_penalty(i64::MIN).cost_in_range());
}

#[test]
fn range_follows_the_total_area() {
    // 55108 squared times a little over 55109 is the largest area whose square fits
    let mut solution = RectangleSolution::new(instance(60000, &[]));
    let mut bin = BoxBin::new(60000);
    bin.placements.push(Placement { rect: Rect::new(0, 55109, 55108), x: 0, y: 0, rotated: false });
    solution.boxes.push(bin);
    assert_eq!(solution.boxes[0].used_area_within(3_037_000_499), Some(3_036_946_772));
    assert!(solution.cost_in_range());
    assert_eq!(solution.cost(), (1, -(3_036_946_772i64 * 3_036_946_772i64)));
    solution.boxes[0].placements.push(Placement {
        rect: Rect::new(1, 53727, 1),
        x: 0,
        y: 0,
        rotated: false,
    });
    assert_eq!(solution.boxes[0].used_area_within(3_037_000_499), Some(3_037_000_499));
    assert!(solution.cost_in_range());
    assert_eq!(solution.cost(), (1, -(3_037_000_499i64 * 3_037_000_499i64)));
    let mut other = BoxBin::new(60000);
    other.placements.push(Placement { rect: Rect::new(2, 1, 1), x: 0, y: 0, rotated: false });
    solution.boxes.push(other);
    assert!(!solution.cost_in_range());
    assert_eq!(solution.boxes[0].used_area_within(3_037_000_498), None);
    assert_eq!(solution.boxes[1].used_area_within(0), None);
    assert_eq!(solution.boxes[1].used_area_within(1), Some(1));
}

#[test]
fn range_with_penalty_asks_for_filled_bins_that_fit() {
    let mut solution =
        create_trivial_solution(&instance(10, &[(10, 10), (10, 10)])).with_penalty(10);
    assert!(solution.has_no_empty_bin());
    assert!(solution.rects_fit_bins());
    assert!(solution.cost_in_range());
    solution.boxes.push(BoxBin::new(10));
    assert!(!solution.has_no_empty_bin());
    assert!(!solution.cost_in_range());
    solution.penalty_factor = None;
    assert!(solution.cost_in_range());
    solution.boxes.pop();
    solution.boxes[0].placements.push(Placement {
        rect: Rect::new(5, 11, 1),
        x: 0,
        y: 0,
        rotated: false,
    });
    assert!(!solution.rects_fit_bins());
    assert!(solution.cost_in_range());
    solution.penalty_factor = Some(1);
    assert!(!solution.cost_in_range());
}

#[test]
fn range_with_penalty_asks_for_a_bin_weight_that_fits() {
    let fits = create_trivial_solution(&instance(55108, &[(1, 1)])).with_penalty(1);
    assert!(fits.cost_in_range());
    assert_eq!(fits.cost(), (0, 55108i64.pow(4) + 1 - 1));
    let too_wide = create_trivial_solution(&instance(55109, &[(1, 1)])).with_penalty(1);
    assert!(!too_wide.cost_in_range());
    let two = create_trivial_solution(&instance(55108, &[(1, 1), (1, 1)])).with_penalty(1);
    assert!(!two.cost_in_range());
}

#[test]
fn permutation_range_follows_the_area_of_the_sequence() {
    let inst = instance(60000, &[(55109, 55108), (53727, 1)]);
    let solution = PermutationSolution::new(inst.clone(), inst.rects.clone());
    assert!(solution.cost_in_range());
    let more = instance(60000, &[(55109, 55108), (53727, 1), (1, 1)]);
    assert!(!PermutationSolution::new(more.clone(), more.rects.clone()).cost_in_range());
    assert!(PermutationSolution::new(instance(10, &[]), Vec::new()).cost_in_range());
}

#[test]
fn well_formed_instances_fit_and_have_distinct_ids() {
    assert!(instance(10, &[(4, 6), (6, 4), (10, 10)]).is_well_formed());
    assert!(instance(10, &[]).is_well_formed());
    let mut twice = instance(10, &[(4, 6), (6, 4), (10, 10)]);
    twice.rects[2].id = 0;
    assert!(!twice.is_well_formed());
    let mut wide = instance(10, &[(4, 6), (6, 4)]);
    wide.rects[1].width = 11;
    assert!(!wide.is_well_formed());
    let mut high = instance(10, &[(4, 6), (6, 4)]);
    high.rects[0].height = 11;
    assert!(!high.is_well_formed());
}
