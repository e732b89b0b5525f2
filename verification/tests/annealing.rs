use optalgos_program::algorithms::traits::{Neighborhood, Solution};
use optalgos_program::generator::Generator;
use optalgos_program::problem::annealing::{create_trivial_solution, run_overlapping_ls};
use optalgos_program::problem::instance::Instance;
use optalgos_program::problem::local_search::GeometricNeighborhood;
use optalgos_program::problem::rect::Rect;
use optalgos_program::problem::solution::RectangleSolution;

fn instance(capacity: u32, sizes: &[(u32, u32)]) -> Instance {
    let rects = sizes.iter().enumerate().map(|(i, s)| Rect::new(i, s.0, s.1)).collect();
    Instance::new(capacity, rects)
}

fn placed_ids(solution: &RectangleSolution) -> Vec<usize> {
    let mut ids: Vec<usize> =
        solution.boxes.iter().flat_map(|b| b.placements.iter().map(|p| p.rect.id)).collect();
    ids.sort();
    ids
}

fn total_overlap(solution: &RectangleSolution) -> u64 {
    let mut total = 0;
    for b in &solution.boxes {
        for i in 0..b.placements.len() {
            for j in i + 1..b.placements.len() {
                total += b.placements[i].overlap(&b.placements[j]);
            }
        }
    }
    total
}

#[test]
fn annealing_separates_full_squares_again() {
    let start = create_trivial_solution(&instance(10, &[(10, 10), (10, 10), (10, 10)]));
    let result = run_overlapping_ls(start);
    assert_eq!(result.penalty_factor, None);
    assert_eq!(result.boxes.len(), 3);
    assert_eq!(placed_ids(&result), vec![0, 1, 2]);
    assert_eq!(total_overlap(&result), 0);
    assert_eq!(result.cost(), (3, -30000));
}

#[test]
fn annealing_keeps_every_rectangle_and_ends_in_a_geometric_optimum() {
    let sizes: Vec<(u32, u32)> =
        (0..12u32).map(|i| (2 + (i * 7) % 7, 2 + (i * 5 + 3) % 6)).collect();
    let inst = instance(10, &sizes);
    let result = run_overlapping_ls(create_trivial_solution(&inst));
    assert_eq!(result.penalty_factor, None);
    assert_eq!(placed_ids(&result), (0..12).collect::<Vec<usize>>());
    assert!(result.boxes.len() <= 12);
    assert!(result.boxes.iter().all(|b| !b.placements.is_empty()));
    let cost = result.cost();
    for n in GeometricNeighborhood.neighbors(&result) {
        assert!(n.cost() >= cost);
    }
    for b in &result.boxes {
        for p in &b.placements {
            assert!(p.x + p.width() <= 10 && p.y + p.height() <= 10);
            assert_eq!(p.rect, inst.rects[p.rect.id]);
        }
    }
}

#[test]
fn annealing_is_repeatable() {
    let sizes: Vec<(u32, u32)> =
        (0..10u32).map(|i| (1 + (i * 3) % 8, 1 + (i * 5 + 1) % 8)).collect();
    let inst = instance(9, &sizes);
    let a = run_overlapping_ls(create_trivial_solution(&inst));
    let b = run_overlapping_ls(create_trivial_solution(&inst));
    assert_eq!(a.cost(), b.cost());
    assert_eq!(a.boxes.len(), b.boxes.len());
    for (x, y) in a.boxes.iter().zip(b.boxes.iter()) {
        assert_eq!(x.placements, y.placements);
    }
}

#[test]
fn annealing_of_an_empty_instance_is_empty() {
    let result = run_overlapping_ls(create_trivial_solution(&instance(10, &[])));
    assert!(result.boxes.is_empty());
    assert_eq!(result.cost(), (0, 0));
}

#[test]
fn annealing_on_a_generated_instance_places_everything() {
    let inst = Generator::generate_instance(15, (2, 8), (2, 8), 12);
    let result = run_overlapping_ls(create_trivial_solution(&inst));
    assert_eq!(result.penalty_factor, None);
    assert_eq!(placed_ids(&result), (0..15).collect::<Vec<usize>>());
}

#[test]
fn an_overlap_cheaper_than_a_bin_stays() {
    // the small square slips under the large one while overlap is cheap, and
    // no later penalty outweighs the bin that parting them would cost
    let start = create_trivial_solution(&instance(100, &[(100, 100), (1, 1)]));
    let result = run_overlapping_ls(start);
    assert_eq!(result.penalty_factor, None);
    assert_eq!(placed_ids(&result), vec![0, 1]);
    assert_eq!(result.boxes.len(), 1);
    assert_eq!(total_overlap(&result), 1);
    assert_eq!(result.cost(), (1, -(10001 * 10001)));
}
