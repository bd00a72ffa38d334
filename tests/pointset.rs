use algs::point::Point;
use algs::pointset::PointSet;
use algs::rect::Rect;

fn three_points() -> PointSet {
    let mut s = PointSet::new();
    s.insert(Point { x: 1, y: 1 });
    s.insert(Point { x: 2, y: 2 });
    s.insert(Point { x: 5, y: 5 });
    s
}

#[test]
fn range_finds_points_inside() {
    let s = three_points();
    let found = s.range(&Rect::new([0, 0, 3, 3]));
    assert_eq!(found, vec![&Point { x: 1, y: 1 }, &Point { x: 2, y: 2 }]);
}

#[test]
fn nearest_to_origin() {
    let s = three_points();
    assert_eq!(s.nearest(&Point { x: 0, y: 0 }), Some(&Point { x: 1, y: 1 }));
    assert_eq!(s.nearest(&Point { x: 4, y: 6 }), Some(&Point { x: 5, y: 5 }));
}

#[test]
fn nearest_tie_goes_to_lower_point() {
    let mut s = PointSet::new();
    s.insert(Point { x: 0, y: 2 });
    s.insert(Point { x: 2, y: 0 });
    assert_eq!(s.nearest(&Point { x: 1, y: 1 }), Some(&Point { x: 2, y: 0 }));
}

#[test]
fn empty_set_has_no_nearest() {
    let s = PointSet::new();
    assert_eq!(s.size(), 0);
    assert_eq!(s.nearest(&Point { x: 0, y: 0 }), None);
    assert!(s.range(&Rect::new([0, 0, 1, 1])).is_empty());
}

#[test]
fn inserting_a_point_twice_keeps_one() {
    let mut s = three_points();
    s.insert(Point { x: 2, y: 2 });
    assert_eq!(s.size(), 3);
    assert!(s.contains(&Point { x: 2, y: 2 }));
    assert!(!s.contains(&Point { x: 2, y: 3 }));
}
