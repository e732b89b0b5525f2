use optalgos_program::algorithms::greedy::solve;
use optalgos_program::algorithms::traits::{GreedyState, SelectionStrategy};
use optalgos_program::problem::greedy::{
    solve_greedy, RectangleGreedyState, SortByAreaStrategy, SortByMaxSideStrategy,
};
use optalgos_program::problem::instance::Instance;
use optalgos_program::problem::rect::Rect;
use optalgos_program::problem::solution::RectangleSolution;

fn instance(capacity: u32, sizes: &[(u32, u32)]) -> Instance {
    let rects = sizes.iter().enumerate().map(|(i, s)| Rect::new(i, s.0, s.1)).collect();
    Instance::new(capacity, rects)
}

fn by_area(inst: &Instance) -> RectangleSolution {
    let mut state = RectangleGreedyState::new(inst.clone());
    let mut strategy = SortByAreaStrategy;
    solve(&mut state, &mut strategy);
    assert!(state.is_finished());
    state.solution
}

fn by_side(inst: &Instance) -> RectangleSolution {
    let mut state = RectangleGreedyState::new(inst.clone());
    let mut strategy = SortByMaxSideStrategy;
    solve(&mut state, &mut strategy);
    assert!(state.is_finished());
    state.solution
}

fn placed_ids(solution: &RectangleSolution) -> Vec<usize> {
    let mut ids: Vec<usize> =
        solution.boxes.iter().flat_map(|b| b.placements.iter().map(|p| p.rect.id)).collect();
    ids.sort();
    ids
}

fn assert_packed(solution: &RectangleSolution) {
    for bin in &solution.boxes {
        for i in 0..bin.placements.len() {
            let p = bin.placements[i];
            assert!(p.x + p.width() <= bin.capacity);
            assert!(p.y + p.height() <= bin.capacity);
            for j in 0..bin.placements.len() {
                if i != j {
                    assert!(!p.intersects(&bin.placements[j]));
                }
            }
        }
    }
}

#[test]
fn new_state_holds_every_rectangle_and_no_bin() {
    let inst = instance(10, &[(4, 6), (6, 4)]);
    let state = RectangleGreedyState::new(inst);
    assert_eq!(state.remaining_rects, vec![Rect::new(0, 4, 6), Rect::new(1, 6, 4)]);
    assert!(state.solution.boxes.is_empty());
    assert_eq!(state.solution.penalty_factor, None);
    assert_eq!(state.solution.instance.box_size, 10);
    assert!(!state.is_finished());
}

#[test]
fn state_of_an_empty_instance_is_finished() {
    let mut state = RectangleGreedyState::new(instance(10, &[]));
    assert!(state.is_finished());
    let mut strategy = SortByAreaStrategy;
    assert_eq!(strategy.next_candidate(&state), None);
    solve(&mut state, &mut strategy);
    assert!(state.solution.boxes.is_empty());
}

#[test]
fn three_full_squares_take_three_bins() {
    let inst = instance(10, &[(10, 10), (10, 10), (10, 10)]);
    for solution in [by_area(&inst), by_side(&inst)] {
        assert_eq!(solution.boxes.len(), 3);
        for bin in &solution.boxes {
            assert_eq!(bin.placements.len(), 1);
            assert_eq!(bin.placements[0].x, 0);
            assert_eq!(bin.placements[0].y, 0);
            assert!(!bin.placements[0].rotated);
        }
        assert_eq!(placed_ids(&solution), vec![0, 1, 2]);
    }
}

#[test]
fn two_rectangles_share_one_bin() {
    let inst = instance(10, &[(4, 6), (6, 4)]);
    for solution in [by_area(&inst), by_side(&inst)] {
        assert_eq!(solution.boxes.len(), 1);
        let bin = &solution.boxes[0];
        assert_eq!(bin.placements.len(), 2);
        assert!(!bin.placements[0].intersects(&bin.placements[1]));
        assert_eq!(bin.placements[0].intersection_area(&bin.placements[1]), 0);
        assert_eq!((bin.placements[0].rect.id, bin.placements[0].x, bin.placements[0].y), (0, 0, 0));
        assert_eq!((bin.placements[1].rect.id, bin.placements[1].x, bin.placements[1].y), (1, 4, 0));
        assert_packed(&solution);
    }
}

#[test]
fn a_rectangle_is_turned_where_only_that_fits() {
    let inst = instance(10, &[(10, 4), (6, 10)]);
    let solution = by_area(&inst);
    assert_eq!(solution.boxes.len(), 1);
    let bin = &solution.boxes[0];
    // the larger rectangle goes first, upright at the origin; the other one
    // has to be turned to lie beside it
    assert_eq!(bin.placements[0].rect.id, 1);
    assert!(!bin.placements[0].rotated);
    assert_eq!(bin.placements[1].rect.id, 0);
    assert!(bin.placements[1].rotated);
    assert_eq!((bin.placements[1].x, bin.placements[1].y), (6, 0));
    assert_eq!(bin.placements[1].width(), 4);
    assert_eq!(bin.placements[1].height(), 10);
    assert_packed(&solution);
}

#[test]
fn greedy_places_every_rectangle_exactly_once() {
    let sizes: Vec<(u32, u32)> =
        (0..40u32).map(|i| (1 + (i * 7) % 9, 1 + (i * 5 + 3) % 8)).collect();
    let inst = instance(12, &sizes);
    for solution in [by_area(&inst), by_side(&inst)] {
        assert_eq!(placed_ids(&solution), (0..40).collect::<Vec<usize>>());
        for bin in &solution.boxes {
            assert!(!bin.placements.is_empty());
            for p in &bin.placements {
                assert_eq!(p.rect, inst.rects[p.rect.id]);
            }
        }
        assert_packed(&solution);
    }
}

#[test]
fn area_strategy_picks_the_first_of_the_largest() {
    let state = RectangleGreedyState::new(instance(10, &[(2, 3), (3, 4), (6, 2), (4, 3), (1, 1)]));
    let mut strategy = SortByAreaStrategy;
    assert_eq!(strategy.next_candidate(&state), Some(Rect::new(1, 3, 4)));
}

#[test]
fn side_strategy_picks_the_first_of_the_longest() {
    let state = RectangleGreedyState::new(instance(10, &[(2, 3), (3, 5), (6, 2), (2, 6), (1, 1)]));
    let mut strategy = SortByMaxSideStrategy;
    assert_eq!(strategy.next_candidate(&state), Some(Rect::new(2, 6, 2)));
}

#[test]
fn strategies_can_disagree() {
    let state = RectangleGreedyState::new(instance(10, &[(5, 5), (9, 1)]));
    assert_eq!(SortByAreaStrategy.next_candidate(&state), Some(Rect::new(0, 5, 5)));
    assert_eq!(SortByMaxSideStrategy.next_candidate(&state), Some(Rect::new(1, 9, 1)));
}

#[test]
fn apply_strikes_the_rectangle_off_and_places_it_by_first_fit() {
    let mut state = RectangleGreedyState::new(instance(10, &[(6, 6), (5, 5), (4, 4), (4, 10)]));
    state.apply(Rect::new(0, 6, 6));
    assert_eq!(state.remaining_rects.len(), 3);
    assert_eq!(state.solution.boxes.len(), 1);
    state.apply(Rect::new(1, 5, 5));
    // no room beside or above the first square
    assert_eq!(state.solution.boxes.len(), 2);
    state.apply(Rect::new(2, 4, 4));
    // the first bin that accepts wins
    assert_eq!(state.solution.boxes[0].placements.len(), 2);
    assert_eq!(state.solution.boxes[0].placements[1].rect.id, 2);
    assert_eq!(
        (state.solution.boxes[0].placements[1].x, state.solution.boxes[0].placements[1].y),
        (6, 0)
    );
    state.apply(Rect::new(3, 4, 10));
    // turned, it lies above the two squares of the first bin
    assert_eq!(state.solution.boxes[0].placements.len(), 3);
    assert_eq!(state.solution.boxes[1].placements.len(), 1);
    let last = state.solution.boxes[0].placements[2];
    assert_eq!((last.rect.id, last.x, last.y, last.rotated), (3, 0, 6, true));
    assert!(state.is_finished());
}

#[test]
fn largest_first_needs_fewer_bins_here() {
    // four halves and two thirds of a bin's side
    let inst = instance(6, &[(2, 6), (3, 6), (3, 6), (2, 6), (3, 6), (3, 6), (2, 6)]);
    let solution = by_area(&inst);
    assert_eq!(solution.boxes.len(), 3);
    assert_eq!(placed_ids(&solution), vec![0, 1, 2, 3, 4, 5, 6]);
}

#[test]
fn solve_greedy_gives_the_packing_of_the_finished_state() {
    let sizes: Vec<(u32, u32)> =
        (0..30u32).map(|i| (1 + (i * 7) % 9, 1 + (i * 5 + 3) % 8)).collect();
    let inst = instance(12, &sizes);
    let direct = solve_greedy(inst.clone(), &mut SortByAreaStrategy);
    let stepwise = by_area(&inst);
    assert_eq!(direct.boxes.len(), stepwise.boxes.len());
    for (a, b) in direct.boxes.iter().zip(stepwise.boxes.iter()) {
        assert_eq!(a.placements, b.placements);
    }
    assert_eq!(direct.penalty_factor, None);
    assert_eq!(direct.instance.rects, inst.rects);
    assert_eq!(placed_ids(&direct), (0..30).collect::<Vec<usize>>());
    assert_packed(&direct);
    let by_longest = solve_greedy(inst.clone(), &mut SortByMaxSideStrategy);
    assert_eq!(placed_ids(&by_longest), (0..30).collect::<Vec<usize>>());
    assert_packed(&by_longest);
}
