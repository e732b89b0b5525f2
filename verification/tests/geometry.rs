use optalgos_program::problem::placement::Placement;
use optalgos_program::problem::rect::Rect;

fn placed(id: usize, x: u32, y: u32, w: u32, h: u32, rotated: bool) -> Placement {
    Placement { rect: Rect::new(id, w, h), x, y, rotated }
}

#[test]
fn rect_new_keeps_its_arguments() {
    let r = Rect::new(7, 3, 5);
    assert_eq!(r.id, 7);
    assert_eq!(r.width, 3);
    assert_eq!(r.height, 5);
}

#[test]
fn rect_area_is_width_times_height() {
    assert_eq!(Rect::new(0, 3, 5).area(), 15);
    assert_eq!(Rect::new(0, 0, 5).area(), 0);
    assert_eq!(Rect::new(0, 65535, 65537).area(), 4294967295);
}

#[test]
fn rotation_swaps_width_and_height() {
    let upright = placed(0, 1, 2, 4, 6, false);
    let turned = placed(0, 1, 2, 4, 6, true);
    assert_eq!(upright.width(), 4);
    assert_eq!(upright.height(), 6);
    assert_eq!(turned.width(), 6);
    assert_eq!(turned.height(), 4);
}

#[test]
fn overlapping_squares_share_a_two_by_two_region() {
    let a = placed(0, 0, 0, 4, 4, false);
    let b = placed(1, 2, 2, 4, 4, false);
    assert!(a.intersects(&b));
    assert_eq!(a.intersection_area(&b), 4);
    assert_eq!(a.overlap(&b), 4);
}

#[test]
fn intersection_area_is_symmetric() {
    let a = placed(0, 0, 0, 5, 3, false);
    let b = placed(1, 3, 1, 4, 7, true);
    assert_eq!(a.intersection_area(&b), b.intersection_area(&a));
    assert_eq!(a.intersection_area(&b), 4);
    assert_eq!(a.intersects(&b), b.intersects(&a));
}

#[test]
fn intersection_area_is_zero_exactly_for_disjoint_placements() {
    let a = placed(0, 0, 0, 4, 4, false);
    let others = vec![
        placed(1, 4, 0, 4, 4, false),
        placed(2, 0, 4, 4, 4, false),
        placed(3, 3, 3, 2, 2, false),
        placed(4, 10, 10, 1, 1, false),
        placed(5, 1, 1, 1, 1, false),
        placed(6, 3, 0, 1, 9, true),
    ];
    for b in &others {
        assert_eq!(a.intersection_area(b) == 0, !a.intersects(b));
        assert_eq!(b.intersection_area(&a) == 0, !b.intersects(&a));
    }
}

#[test]
fn touching_edges_do_not_intersect() {
    let a = placed(0, 0, 0, 4, 4, false);
    let right = placed(1, 4, 0, 4, 4, false);
    let above = placed(2, 0, 4, 4, 4, false);
    let corner = placed(3, 4, 4, 4, 4, false);
    assert!(!a.intersects(&right));
    assert!(!a.intersects(&above));
    assert!(!a.intersects(&corner));
    assert_eq!(a.intersection_area(&right), 0);
}

#[test]
fn contained_placement_overlaps_by_its_own_area() {
    let outer = placed(0, 0, 0, 10, 10, false);
    let inner = placed(1, 2, 3, 4, 2, true);
    assert!(outer.intersects(&inner));
    assert_eq!(outer.intersection_area(&inner), 8);
}

#[test]
fn intersects_near_the_upper_coordinate_limit() {
    let a = placed(0, u32::MAX, u32::MAX, u32::MAX, u32::MAX, false);
    let b = placed(1, u32::MAX - 1, u32::MAX - 1, 2, 2, false);
    assert!(a.intersects(&b));
    assert_eq!(a.overlap(&b), 1);
}
