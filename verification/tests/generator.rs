use optalgos_program::generator::Generator;
use optalgos_program::problem::rect::Rect;

#[test]
fn generated_rectangles_lie_in_their_ranges() {
    let inst = Generator::generate_instance(200, (5, 20), (3, 9), 40);
    assert_eq!(inst.box_size, 40);
    assert_eq!(inst.rects.len(), 200);
    for (i, r) in inst.rects.iter().enumerate() {
        assert_eq!(r.id, i);
        assert!(5 <= r.width && r.width <= 20);
        assert!(3 <= r.height && r.height <= 9);
    }
}

#[test]
fn generated_rectangles_are_not_all_alike() {
    let inst = Generator::generate_instance(200, (5, 20), (3, 9), 40);
    let first = inst.rects[0];
    assert!(inst.rects.iter().any(|r| r.width != first.width));
    assert!(inst.rects.iter().any(|r| r.height != first.height));
    assert!(inst.rects.iter().any(|r| r.width != 5));
    assert!(inst.rects.iter().any(|r| r.height != 3));
}

#[test]
fn a_range_of_one_value_gives_that_value() {
    let inst = Generator::generate_instance(20, (7, 7), (40, 40), 40);
    for r in &inst.rects {
        assert_eq!((r.width, r.height), (7, 40));
    }
}

#[test]
fn both_bounds_of_a_range_are_drawn() {
    let inst = Generator::generate_instance(400, (1, 2), (9, 10), 10);
    assert!(inst.rects.iter().any(|r| r.width == 1));
    assert!(inst.rects.iter().any(|r| r.width == 2));
    assert!(inst.rects.iter().any(|r| r.height == 9));
    assert!(inst.rects.iter().any(|r| r.height == 10));
}

#[test]
fn no_rectangles_may_be_asked_for() {
    let inst = Generator::generate_instance(0, (50, 60), (50, 60), 10);
    assert!(inst.rects.is_empty());
    assert_eq!(inst.box_size, 10);
}

#[test]
fn shuffled_sequence_holds_the_same_rectangles() {
    let inst = Generator::generate_instance(30, (1, 9), (1, 9), 10);
    let mut differs = false;
    for _ in 0..5 {
        let solution = Generator::shuffled_sequence(&inst);
        assert_eq!(solution.instance.box_size, 10);
        assert_eq!(solution.instance.rects, inst.rects);
        let mut ids: Vec<usize> = solution.sequence.iter().map(|r| r.id).collect();
        differs = differs || ids != (0..30).collect::<Vec<usize>>();
        ids.sort();
        assert_eq!(ids, (0..30).collect::<Vec<usize>>());
        for r in &solution.sequence {
            assert_eq!(*r, inst.rects[r.id]);
        }
    }
    assert!(differs);
}

#[test]
fn shuffled_sequence_of_nothing_is_empty() {
    let inst = optalgos_program::problem::instance::Instance::new(10, Vec::<Rect>::new());
    assert!(Generator::shuffled_sequence(&inst).sequence.is_empty());
}
