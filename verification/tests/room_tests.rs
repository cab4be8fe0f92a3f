use roguelike::room::{distance_between_points, Room};

#[test]
fn center_of_even_span() {
    let r = Room { x1: 2, x2: 8, y1: 4, y2: 10 };
    assert_eq!(r.center(), (5, 7));
}

#[test]
fn center_rounds_toward_zero() {
    let r = Room { x1: 1, x2: 2, y1: 3, y2: 6 };
    assert_eq!(r.center(), (1, 4));
    let n = Room { x1: -3, x2: 0, y1: -5, y2: 0 };
    assert_eq!(n.center(), (-1, -2));
}

#[test]
fn intersect_overlapping_rooms() {
    let a = Room { x1: 1, x2: 5, y1: 1, y2: 5 };
    let b = Room { x1: 4, x2: 8, y1: 4, y2: 8 };
    assert!(a.intersect(&b));
    assert!(b.intersect(&a));
}

#[test]
fn intersect_disjoint_rooms() {
    let a = Room { x1: 1, x2: 3, y1: 1, y2: 3 };
    let b = Room { x1: 5, x2: 8, y1: 5, y2: 8 };
    assert!(!a.intersect(&b));
    assert!(!b.intersect(&a));
}

#[test]
fn intersect_touching_corners_counts() {
    // The test treats the corner rectangles as closed, so two rooms that
    // merely share an edge coordinate are still rejected as intersecting.
    let a = Room { x1: 1, x2: 4, y1: 1, y2: 4 };
    let b = Room { x1: 4, x2: 7, y1: 4, y2: 7 };
    assert!(a.intersect(&b));
}

#[test]
fn squared_distance_exact() {
    assert_eq!(distance_between_points(0, 0, 3, 4), 25);
    assert_eq!(distance_between_points(3, 4, 3, 4), 0);
    assert_eq!(distance_between_points(10, 0, 0, 10), 200);
}
