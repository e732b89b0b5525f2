use optalgos_program::algorithms::local_search::{first_improvement, solve};
use optalgos_program::algorithms::traits::{Neighborhood, Solution};
use optalgos_program::problem::annealing::create_trivial_solution;
use optalgos_program::problem::instance::Instance;
use optalgos_program::problem::local_search::{
    swap_neighbor, GeometricNeighborhood, OverlappingNeighborhood, RuleBasedNeighborhood,
};
use optalgos_program::problem::moves::{open_bin, relocate, relocation_moves, MoveRule};
use optalgos_program::problem::permutation::PermutationSolution;
use optalgos_program::problem::rect::Rect;
use optalgos_program::problem::solution::RectangleSolution;

fn instance(capacity: u32, sizes: &[(u32, u32)]) -> Instance {
    let rects = sizes.iter().enumerate().map(|(i, s)| Rect::new(i, s.0, s.1)).collect();
    Instance::new(capacity, rects)
}

fn layout(solution: &RectangleSolution) -> Vec<Vec<(usize, u32, u32, bool)>> {
    solution
        .boxes
        .iter()
        .map(|b| b.placements.iter().map(|p| (p.rect.id, p.x, p.y, p.rotated)).collect())
        .collect()
}

fn placed_ids(solution: &RectangleSolution) -> Vec<usize> {
    let mut ids: Vec<usize> =
        solution.boxes.iter().flat_map(|b| b.placements.iter().map(|p| p.rect.id)).collect();
    ids.sort();
    ids
}

fn has_overlap(solution: &RectangleSolution) -> bool {
    solution.boxes.iter().any(|b| {
        (0..b.placements.len()).any(|i| {
            (i + 1..b.placements.len())
                .any(|j| b.placements[i].intersection_area(&b.placements[j]) > 0)
        })
    })
}

#[test]
fn geometric_neighbors_move_one_rectangle_into_another_bin() {
    let trivial = create_trivial_solution(&instance(10, &[(4, 6), (6, 4)]));
    let neighbors = GeometricNeighborhood.neighbors(&trivial);
    assert_eq!(neighbors.len(), 2);
    assert_eq!(layout(&neighbors[0]), vec![vec![(1, 0, 0, false), (0, 6, 0, false)]]);
    assert_eq!(layout(&neighbors[1]), vec![vec![(0, 0, 0, false), (1, 4, 0, false)]]);
    assert_eq!(layout(&trivial), vec![vec![(0, 0, 0, false)], vec![(1, 0, 0, false)]]);
}

#[test]
fn geometric_neighbors_come_in_the_order_of_source_placement_and_target() {
    let mut solution = create_trivial_solution(&instance(10, &[(2, 2), (3, 3), (4, 4)]));
    solution.boxes[0].try_place(Rect::new(3, 1, 1), 5, 5, false);
    let neighbors = GeometricNeighborhood.neighbors(&solution);
    let moved: Vec<Vec<Vec<(usize, u32, u32, bool)>>> = neighbors.iter().map(layout).collect();
    assert_eq!(moved.len(), 8);
    // first bin, first placement, into the second bin and into the third
    assert_eq!(
        moved[0],
        vec![
            vec![(3, 5, 5, false)],
            vec![(1, 0, 0, false), (0, 3, 0, false)],
            vec![(2, 0, 0, false)]
        ]
    );
    assert_eq!(
        moved[1],
        vec![
            vec![(3, 5, 5, false)],
            vec![(1, 0, 0, false)],
            vec![(2, 0, 0, false), (0, 4, 0, false)]
        ]
    );
    // first bin, second placement
    assert_eq!(
        moved[2],
        vec![
            vec![(0, 0, 0, false)],
            vec![(1, 0, 0, false), (3, 3, 0, false)],
            vec![(2, 0, 0, false)]
        ]
    );
    // second bin: it is left empty and the last bin takes its slot
    assert_eq!(
        moved[4],
        vec![
            vec![(0, 0, 0, false), (3, 5, 5, false), (1, 2, 0, false)],
            vec![(2, 0, 0, false)]
        ]
    );
    assert_eq!(
        moved[5],
        vec![
            vec![(0, 0, 0, false), (3, 5, 5, false)],
            vec![(2, 0, 0, false), (1, 4, 0, false)]
        ]
    );
    for neighbor in &neighbors {
        assert!(neighbor.boxes.len() <= solution.boxes.len());
        assert_eq!(placed_ids(neighbor), vec![0, 1, 2, 3]);
        assert!(!has_overlap(neighbor));
    }
}

#[test]
fn geometric_neighborhood_of_full_bins_is_empty() {
    let trivial = create_trivial_solution(&instance(10, &[(10, 10), (10, 10), (10, 10)]));
    assert!(GeometricNeighborhood.neighbors(&trivial).is_empty());
    let empty = RectangleSolution::new(instance(10, &[]));
    assert!(GeometricNeighborhood.neighbors(&empty).is_empty());
}

#[test]
fn relocate_removes_a_source_bin_left_empty() {
    let trivial = create_trivial_solution(&instance(10, &[(4, 6), (6, 4), (2, 2)]));
    let moved = relocate(&trivial, 0, 0, 1, (6, 0, false));
    assert_eq!(
        layout(&moved),
        vec![vec![(2, 0, 0, false)], vec![(1, 0, 0, false), (0, 6, 0, false)]]
    );
    let mut pair = create_trivial_solution(&instance(10, &[(4, 6), (6, 4), (2, 2)]));
    pair.boxes[0].try_place(Rect::new(3, 1, 1), 9, 9, false);
    pair.boxes[0].try_place(Rect::new(4, 1, 1), 8, 9, false);
    let kept = relocate(&pair, 0, 0, 2, (2, 0, true));
    assert_eq!(
        layout(&kept),
        vec![
            vec![(4, 8, 9, false), (3, 9, 9, false)],
            vec![(1, 0, 0, false)],
            vec![(2, 0, 0, false), (0, 2, 0, true)]
        ]
    );
}

#[test]
fn open_bin_adds_the_new_bin_last() {
    let mut pair = create_trivial_solution(&instance(10, &[(4, 6), (6, 4)]));
    pair.boxes[0].try_place(Rect::new(2, 1, 1), 9, 9, false);
    let opened = open_bin(&pair, 0, 0);
    assert_eq!(
        layout(&opened),
        vec![vec![(2, 9, 9, false)], vec![(1, 0, 0, false)], vec![(0, 0, 0, false)]]
    );
    let alone = open_bin(&pair, 1, 0);
    assert_eq!(
        layout(&alone),
        vec![vec![(0, 0, 0, false), (2, 9, 9, false)], vec![(1, 0, 0, false)]]
    );
    assert_eq!(alone.boxes[1].capacity, 10);
}

#[test]
fn first_improvement_takes_the_first_better_neighbor() {
    let trivial = create_trivial_solution(&instance(10, &[(4, 6), (6, 4)]));
    let neighbors = GeometricNeighborhood.neighbors(&trivial);
    let found = first_improvement(neighbors, &trivial.cost());
    assert_eq!(
        found.map(|s| layout(&s)),
        Some(vec![vec![(1, 0, 0, false), (0, 6, 0, false)]])
    );
    let neighbors = GeometricNeighborhood.neighbors(&trivial);
    assert!(first_improvement(neighbors, &(1, -2304)).is_none());
    let neighbors = GeometricNeighborhood.neighbors(&trivial);
    assert!(first_improvement(neighbors, &(1, -2303)).is_some());
    assert!(first_improvement(Vec::<RectangleSolution>::new(), &(5, 0)).is_none());
}

#[test]
fn first_improvement_skips_neighbors_that_are_not_better() {
    let inst = instance(10, &[(5, 5), (5, 5), (6, 6)]);
    let a = PermutationSolution::new(inst.clone(), inst.rects.clone());
    let costs: Vec<(usize, i64)> =
        RuleBasedNeighborhood::new(None).neighbors(&a).iter().map(|n| n.cost()).collect();
    assert_eq!(costs.len(), 3);
    let best = *costs.iter().min().unwrap();
    let worst = *costs.iter().max().unwrap();
    let neighbors = RuleBasedNeighborhood::new(None).neighbors(&a);
    let first_best = costs.iter().position(|c| *c == best).unwrap();
    let expected = neighbors[first_best].sequence.clone();
    if best < worst {
        let found = first_improvement(neighbors, &worst).unwrap();
        let first_better = costs.iter().position(|c| *c < worst).unwrap();
        let again = RuleBasedNeighborhood::new(None).neighbors(&a);
        assert_eq!(found.sequence, again[first_better].sequence);
    } else {
        assert!(first_improvement(neighbors, &worst).is_none());
        assert_eq!(expected.len(), 3);
    }
}

#[test]
fn geometric_search_consolidates_the_trivial_solution() {
    let trivial = create_trivial_solution(&instance(10, &[(4, 6), (6, 4)]));
    let best = solve(trivial, &GeometricNeighborhood);
    assert_eq!(layout(&best), vec![vec![(1, 0, 0, false), (0, 6, 0, false)]]);
    assert_eq!(best.cost(), (1, -2304));
}

#[test]
fn geometric_search_never_adds_a_bin_and_ends_in_a_local_optimum() {
    let sizes: Vec<(u32, u32)> =
        (0..25u32).map(|i| (1 + (i * 7) % 9, 1 + (i * 5 + 3) % 8)).collect();
    let inst = instance(12, &sizes);
    let mut current = create_trivial_solution(&inst);
    let mut rounds = 0;
    loop {
        let cost = current.cost();
        let neighbors = GeometricNeighborhood.neighbors(&current);
        for n in &neighbors {
            assert!(n.boxes.len() <= current.boxes.len());
        }
        match first_improvement(neighbors, &cost) {
            Some(next) => {
                assert!(next.cost() < cost);
                assert!(next.boxes.len() <= current.boxes.len());
                assert!(!has_overlap(&next));
                current = next;
                rounds += 1;
            }
            None => break,
        }
    }
    assert!(rounds > 0);
    let best = solve(create_trivial_solution(&inst), &GeometricNeighborhood);
    assert_eq!(layout(&best), layout(&current));
    assert!(best.boxes.len() < 25);
    assert_eq!(placed_ids(&best), (0..25).collect::<Vec<usize>>());
    let cost = best.cost();
    for n in GeometricNeighborhood.neighbors(&best) {
        assert!(n.cost() >= cost);
    }
}

#[test]
fn search_returns_a_local_optimum_unchanged() {
    let full = create_trivial_solution(&instance(10, &[(10, 10), (10, 10), (10, 10)]));
    let best = solve(full.clone(), &GeometricNeighborhood);
    assert_eq!(layout(&best), layout(&full));
    assert_eq!(best.cost(), (3, -30000));
}

#[test]
fn swap_neighbor_exchanges_two_positions() {
    let inst = instance(10, &[(1, 1), (2, 2), (3, 3), (4, 4)]);
    let solution = PermutationSolution::new(inst.clone(), inst.rects.clone());
    let ids = |s: &PermutationSolution| s.sequence.iter().map(|r| r.id).collect::<Vec<usize>>();
    assert_eq!(swap_neighbor(&solution, 0, 3).map(|s| ids(&s)), Some(vec![3, 1, 2, 0]));
    assert_eq!(swap_neighbor(&solution, 2, 1).map(|s| ids(&s)), Some(vec![0, 2, 1, 3]));
    assert!(swap_neighbor(&solution, 2, 2).is_none());
    assert!(swap_neighbor(&solution, 0, 4).is_none());
    assert!(swap_neighbor(&solution, 4, 0).is_none());
    assert_eq!(ids(&solution), vec![0, 1, 2, 3]);
    assert_eq!(swap_neighbor(&solution, 0, 1).unwrap().instance.box_size, 10);
}

#[test]
fn exhaustive_swaps_list_every_pair_in_order() {
    let inst = instance(10, &[(1, 1), (2, 2), (3, 3), (4, 4)]);
    let solution = PermutationSolution::new(inst.clone(), inst.rects.clone());
    let neighborhood = RuleBasedNeighborhood::new(None);
    assert_eq!(neighborhood.max_swaps, None);
    let sequences: Vec<Vec<usize>> = neighborhood
        .neighbors(&solution)
        .iter()
        .map(|s| s.sequence.iter().map(|r| r.id).collect())
        .collect();
    assert_eq!(
        sequences,
        vec![
            vec![1, 0, 2, 3],
            vec![2, 1, 0, 3],
            vec![3, 1, 2, 0],
            vec![0, 2, 1, 3],
            vec![0, 3, 2, 1],
            vec![0, 1, 3, 2]
        ]
    );
}

#[test]
fn short_sequences_have_no_neighbors() {
    let one = instance(10, &[(1, 1)]);
    let single = PermutationSolution::new(one.clone(), one.rects.clone());
    assert!(RuleBasedNeighborhood::new(None).neighbors(&single).is_empty());
    assert!(RuleBasedNeighborhood::new(Some(10)).neighbors(&single).is_empty());
    let none = PermutationSolution::new(instance(10, &[]), Vec::new());
    assert!(RuleBasedNeighborhood::new(None).neighbors(&none).is_empty());
    assert!(RuleBasedNeighborhood::new(Some(10)).neighbors(&none).is_empty());
}

#[test]
fn sampled_swaps_are_swaps_and_at_most_as_many_as_asked_for() {
    let inst = instance(10, &[(1, 1), (2, 2), (3, 3), (4, 4), (5, 5)]);
    let solution = PermutationSolution::new(inst.clone(), inst.rects.clone());
    let neighborhood = RuleBasedNeighborhood::new(Some(50));
    assert_eq!(neighborhood.max_swaps, Some(50));
    let neighbors = neighborhood.neighbors(&solution);
    assert!(neighbors.len() <= 50);
    assert!(!neighbors.is_empty());
    let mut moved_positions = std::collections::BTreeSet::new();
    for n in &neighbors {
        assert_eq!(n.sequence.len(), 5);
        let changed: Vec<usize> = (0..5).filter(|&k| n.sequence[k] != solution.sequence[k]).collect();
        assert_eq!(changed.len(), 2);
        assert_eq!(n.sequence[changed[0]], solution.sequence[changed[1]]);
        assert_eq!(n.sequence[changed[1]], solution.sequence[changed[0]]);
        moved_positions.insert(changed[0]);
        moved_positions.insert(changed[1]);
    }
    // drawn positions are not all the same
    assert!(moved_positions.len() > 2);
    assert!(RuleBasedNeighborhood::new(Some(0)).neighbors(&solution).is_empty());
}

#[test]
fn permutation_search_ends_in_a_local_optimum_of_the_same_rectangles() {
    let inst = instance(10, &[(5, 5), (6, 6), (5, 5), (4, 4), (5, 5), (6, 4), (5, 5)]);
    let start = PermutationSolution::new(inst.clone(), inst.rects.clone());
    let start_cost = start.cost();
    let best = solve(start, &RuleBasedNeighborhood::new(None));
    let cost = best.cost();
    assert!(cost <= start_cost);
    for n in RuleBasedNeighborhood::new(None).neighbors(&best) {
        assert!(n.cost() >= cost);
    }
    let mut ids: Vec<usize> = best.sequence.iter().map(|r| r.id).collect();
    ids.sort();
    assert_eq!(ids, (0..7).collect::<Vec<usize>>());
    let sampled = solve(
        PermutationSolution::new(inst.clone(), inst.rects.clone()),
        &RuleBasedNeighborhood::new(Some(50)),
    );
    assert!(sampled.cost() <= start_cost);
}

#[test]
fn tolerant_moves_open_a_bin_only_where_no_other_bin_takes_the_rectangle() {
    let full = create_trivial_solution(&instance(10, &[(10, 10), (10, 10)])).with_penalty(10);
    let strict = OverlappingNeighborhood { max_overlap_percent: 0 }.neighbors(&full);
    assert_eq!(strict.len(), 2);
    assert_eq!(layout(&strict[0]), vec![vec![(1, 0, 0, false)], vec![(0, 0, 0, false)]]);
    assert_eq!(layout(&strict[1]), vec![vec![(0, 0, 0, false)], vec![(1, 0, 0, false)]]);
    let loose = OverlappingNeighborhood { max_overlap_percent: 100 }.neighbors(&full);
    assert_eq!(loose.len(), 2);
    assert_eq!(layout(&loose[0]), vec![vec![(1, 0, 0, false), (0, 0, 0, false)]]);
    assert_eq!(layout(&loose[1]), vec![vec![(0, 0, 0, false), (1, 0, 0, false)]]);
    for n in strict.iter().chain(loose.iter()) {
        assert_eq!(n.penalty_factor, Some(10));
        assert_eq!(placed_ids(n), vec![0, 1]);
    }
}

#[test]
fn tolerant_moves_list_the_other_bins_in_order() {
    let mut solution =
        create_trivial_solution(&instance(10, &[(10, 10), (6, 6), (10, 5)])).with_penalty(10);
    solution.boxes[0].placements.push(optalgos_program::problem::placement::Placement {
        rect: Rect::new(3, 5, 5),
        x: 0,
        y: 0,
        rotated: false,
    });
    let neighbors = OverlappingNeighborhood { max_overlap_percent: 30 }.neighbors(&solution);
    let moves = relocation_moves(&solution, MoveRule::Tolerant { percent: 30 });
    assert_eq!(
        neighbors.iter().map(layout).collect::<Vec<_>>(),
        moves.iter().map(layout).collect::<Vec<_>>()
    );
    let moved: Vec<Vec<Vec<(usize, u32, u32, bool)>>> = neighbors.iter().map(layout).collect();
    // the full square goes nowhere within tolerance: a new bin
    assert_eq!(
        moved[0],
        vec![
            vec![(3, 0, 0, false)],
            vec![(1, 0, 0, false)],
            vec![(2, 0, 0, false)],
            vec![(0, 0, 0, false)]
        ]
    );
    // the small square overlaps the second bin's square too much wherever it
    // fits; in the third bin it lies above the rectangle
    assert_eq!(
        moved[1],
        vec![
            vec![(0, 0, 0, false)],
            vec![(1, 0, 0, false)],
            vec![(2, 0, 0, false), (3, 0, 5, false)]
        ]
    );
    // the other two go nowhere either: each leaves its bin empty, the last
    // bin takes the slot, and the new bin comes last
    assert_eq!(
        moved[2],
        vec![
            vec![(0, 0, 0, false), (3, 0, 0, false)],
            vec![(2, 0, 0, false)],
            vec![(1, 0, 0, false)]
        ]
    );
    assert_eq!(
        moved[3],
        vec![
            vec![(0, 0, 0, false), (3, 0, 0, false)],
            vec![(1, 0, 0, false)],
            vec![(2, 0, 0, false)]
        ]
    );
    assert_eq!(moved.len(), 4);
    for n in &neighbors {
        assert_eq!(placed_ids(n), vec![0, 1, 2, 3]);
        assert!(n.boxes.iter().all(|b| !b.placements.is_empty()));
    }
}

#[test]
fn tolerant_search_stacks_what_a_low_penalty_allows() {
    let start = create_trivial_solution(&instance(10, &[(10, 10), (10, 10)])).with_penalty(10);
    assert_eq!(start.cost(), (0, 2));
    let best = solve(start, &OverlappingNeighborhood { max_overlap_percent: 100 });
    assert_eq!(layout(&best), vec![vec![(1, 0, 0, false), (0, 0, 0, false)]]);
    assert_eq!(best.cost(), (0, 1000 - 40000 + 10001));
    let apart = solve(
        best.clone().with_penalty(1250),
        &OverlappingNeighborhood { max_overlap_percent: 70 },
    );
    assert_eq!(layout(&apart), vec![vec![(0, 0, 0, false)], vec![(1, 0, 0, false)]]);
    assert_eq!(apart.cost(), (0, 2));
}
