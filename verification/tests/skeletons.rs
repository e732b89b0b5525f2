use optalgos_program::algorithms::greedy;
use optalgos_program::algorithms::traits::{GreedyState, SelectionStrategy};
use optalgos_program::problem::greedy::RectangleGreedyState;
use optalgos_program::problem::instance::Instance;
use optalgos_program::problem::rect::Rect;

/// Proposes the remaining rectangles in order, but no more than `left` of them.
struct FirstFew {
    left: usize,
}

impl SelectionStrategy<RectangleGreedyState> for FirstFew {
    // states what `next_candidate` returns; compiled code never calls it
    fn choice(&self, problem: &RectangleGreedyState) -> Option<Rect> {
        if self.left == 0 {
            None
        } else {
            problem.remaining_rects.first().copied()
        }
    }

    fn next_candidate(&mut self, problem: &RectangleGreedyState) -> Option<Rect> {
        if self.left == 0 {
            return None;
        }
        self.left -= 1;
        problem.remaining_rects.first().copied()
    }
}

#[test]
fn greedy_stops_early_when_the_strategy_has_nothing_to_propose() {
    let rects = vec![Rect::new(0, 2, 2), Rect::new(1, 3, 3), Rect::new(2, 4, 4)];
    let mut state = RectangleGreedyState::new(Instance::new(10, rects));
    let mut strategy = FirstFew { left: 2 };
    greedy::solve(&mut state, &mut strategy);
    assert!(!state.is_finished());
    assert_eq!(state.remaining_rects, vec![Rect::new(2, 4, 4)]);
    assert_eq!(state.solution.boxes.len(), 1);
    assert_eq!(state.solution.boxes[0].placements.len(), 2);
    assert_eq!(strategy.left, 0);
}

#[test]
fn greedy_does_not_ask_a_finished_state() {
    let mut state = RectangleGreedyState::new(Instance::new(10, vec![Rect::new(0, 2, 2)]));
    let mut strategy = FirstFew { left: 5 };
    greedy::solve(&mut state, &mut strategy);
    assert!(state.is_finished());
    assert_eq!(strategy.left, 4);
}

#[test]
fn greedy_applies_what_the_strategy_proposes_in_its_order() {
    let rects = vec![Rect::new(0, 2, 2), Rect::new(1, 10, 10), Rect::new(2, 4, 4)];
    let mut state = RectangleGreedyState::new(Instance::new(10, rects));
    let mut strategy = FirstFew { left: 3 };
    greedy::solve(&mut state, &mut strategy);
    assert!(state.is_finished());
    let ids: Vec<Vec<usize>> = state
        .solution
        .boxes
        .iter()
        .map(|b| b.placements.iter().map(|p| p.rect.id).collect())
        .collect();
    assert_eq!(ids, vec![vec![0, 2], vec![1]]);
}
