use algs::point::Point;
use algs::rect::Rect;

#[test]
fn point_points_ordering_should_be_by_y_coord_then_by_x_coord() {
    assert_eq!(Point { x: 1, y: 1 }, Point { x: 1, y: 1 });
    assert!(Point { x: 1, y: 0 } != Point { x: 1, y: 1 });
    assert!(Point { x: 0, y: 1 } != Point { x: 1, y: 1 });

    // y should be first priority for compares
    assert!(Point { x: 1, y: 0 } < Point { x: 1, y: 1 });
    assert!(Point { x: 1, y: 0 } < Point { x: 0, y: 1 });
    assert!(Point { x: 0, y: 1 } > Point { x: 1, y: 0 });

    // x should be tie breaker
    assert!(Point { x: 1, y: 1 } > Point { x: 0, y: 1 });
    assert!(Point { x: 0, y: 1 } < Point { x: 1, y: 1 });
}

#[test]
fn squared_distance_between_points() {
    assert_eq!(Point { x: 0, y: 0 }.distance_squared_to(&Point { x: 1, y: 1 }), 2);
    assert_eq!(Point { x: -3, y: 4 }.distance_squared_to(&Point { x: 0, y: 0 }), 25);
}

#[test]
fn valid_rect_can_be_constructed() {
    Rect::new([0, 0, 1, 1]);
}

#[test]
fn as_rect_wh_works() {
    assert_eq!(Rect::new([1, 1, 3, 3]).as_rect_wh(), [1, 1, 2, 2]);
}

#[test]
fn rect_contains_border_and_inside() {
    let r = Rect::new([2, 2, 4, 4]);
    assert!(r.contains(&Point { x: 2, y: 2 }));
    assert!(r.contains(&Point { x: 2, y: 4 }));
    assert!(r.contains(&Point { x: 4, y: 2 }));
    assert!(r.contains(&Point { x: 4, y: 4 }));
    assert!(r.contains(&Point { x: 3, y: 3 }));
    assert!(!r.contains(&Point { x: 0, y: 3 }));
    assert!(!r.contains(&Point { x: 6, y: 3 }));
    assert!(!r.contains(&Point { x: 3, y: 0 }));
    assert!(!r.contains(&Point { x: 3, y: 6 }));
}

#[test]
fn rect_intersections() {
    let r = Rect::new([2, 2, 4, 4]);
    assert!(r.intersects(&Rect::new([2, 2, 4, 4])));
    assert!(r.intersects(&Rect::new([3, 3, 6, 6])));
    assert!(r.intersects(&Rect::new([4, 4, 7, 7])));
    assert!(!r.intersects(&Rect::new([-2, -2, 0, 0])));
    assert!(!r.intersects(&Rect::new([6, 6, 8, 8])));
}

#[test]
fn rect_squared_distances() {
    let r = Rect::new([4, 3, 8, 6]);
    assert_eq!(r.distance_squared_to(&Point { x: 6, y: 5 }), 0);
    assert_eq!(r.distance_squared_to(&Point { x: 1, y: 4 }), 9);
    assert_eq!(r.distance_squared_to(&Point { x: 0, y: 0 }), 25);
    assert_eq!(r.xmin(), 4);
    assert_eq!(r.ymin(), 3);
    assert_eq!(r.xmax(), 8);
    assert_eq!(r.ymax(), 6);
}
