use lowpoly::point::Point;
use lowpoly::triangle::Triangle;

fn collect(t: &Triangle) -> Vec<Point> {
    let mut it = t.iter();
    let mut out = vec![];
    loop {
        match it.next() {
            Some(p) => out.push(p),
            None => break,
        }
    }
    out
}

#[test]
fn corners_are_kept_with_the_largest_y_first() {
    let t = Triangle::new(Point(1, 2), Point(3, 9), Point(5, 4));
    assert_eq!(t.vertices(), (Point(3, 9), Point(5, 4), Point(1, 2)));
    let t = Triangle::new(Point(1, 9), Point(3, 2), Point(5, 4));
    assert_eq!(t.vertices(), (Point(1, 9), Point(5, 4), Point(3, 2)));
}

#[test]
fn corners_of_equal_height_keep_their_order() {
    let t = Triangle::new(Point(1, 5), Point(2, 5), Point(3, 5));
    assert_eq!(t.vertices(), (Point(1, 5), Point(2, 5), Point(3, 5)));
    let t = Triangle::new(Point(1, 5), Point(2, 7), Point(3, 5));
    assert_eq!(t.vertices(), (Point(2, 7), Point(1, 5), Point(3, 5)));
}

#[test]
fn a_triangle_contains_its_corners() {
    let corners = [Point(10, 10), Point(40, 15), Point(20, 50)];
    let t = Triangle::new(corners[0], corners[1], corners[2]);
    for c in corners {
        assert!(t.contains(c));
    }
    let flat = Triangle::new(Point(1, 1), Point(2, 2), Point(3, 3));
    assert!(flat.contains(Point(1, 1)));
    assert!(flat.contains(Point(2, 2)));
    assert!(flat.contains(Point(3, 3)));
}

#[test]
fn a_triangle_contains_its_centroid() {
    let t = Triangle::new(Point(0, 0), Point(30, 0), Point(0, 30));
    assert!(t.contains(Point(10, 10)));
    let t = Triangle::new(Point(3, 9), Point(12, 33), Point(30, 3));
    assert!(t.contains(Point(15, 15)));
}

#[test]
fn a_triangle_contains_the_points_inside_and_on_its_sides() {
    let t = Triangle::new(Point(10, 10), Point(30, 10), Point(10, 30));
    assert!(t.contains(Point(15, 15)));
    assert!(t.contains(Point(20, 10)));
    assert!(t.contains(Point(10, 20)));
    assert!(t.contains(Point(20, 20)));
    assert!(!t.contains(Point(21, 20)));
    assert!(!t.contains(Point(9, 15)));
    assert!(!t.contains(Point(15, 9)));
}

#[test]
fn a_triangle_contains_nothing_outside_its_bounding_box() {
    let t = Triangle::new(Point(10, 10), Point(30, 12), Point(15, 40));
    for p in [
        Point(9, 20),
        Point(31, 20),
        Point(20, 9),
        Point(20, 41),
        Point(31, 41),
        Point(0, 0),
        Point(-5, 20),
        Point(i32::MAX, i32::MAX),
        Point(i32::MIN, i32::MIN),
    ] {
        assert!(!t.contains(p));
    }
}

#[test]
fn a_side_on_the_left_border_is_contained() {
    let t = Triangle::new(Point(0, 10), Point(0, 30), Point(20, 20));
    assert!(t.contains(Point(0, 10)));
    assert!(t.contains(Point(0, 20)));
    assert!(t.contains(Point(0, 30)));
    assert!(!t.contains(Point(0, 31)));
    assert!(!t.contains(Point(0, 9)));
}

#[test]
fn a_side_on_the_top_border_is_contained() {
    let t = Triangle::new(Point(10, 0), Point(30, 0), Point(20, 20));
    assert!(t.contains(Point(10, 0)));
    assert!(t.contains(Point(25, 0)));
    assert!(!t.contains(Point(31, 0)));
    assert!(!t.contains(Point(9, 0)));
}

#[test]
fn a_border_point_beside_a_third_corner_is_not_contained() {
    let t = Triangle::new(Point(0, 0), Point(0, 10), Point(5, 20));
    assert!(!t.contains(Point(0, 15)));
}

#[test]
fn a_triangle_without_area_contains_only_corners_and_border_sides() {
    let t = Triangle::new(Point(1, 1), Point(5, 5), Point(9, 9));
    assert!(!t.contains(Point(3, 3)));
    let on_border = Triangle::new(Point(0, 1), Point(0, 5), Point(0, 9));
    assert!(on_border.contains(Point(0, 3)));
}

#[test]
fn extreme_coordinates_do_not_overflow() {
    let t = Triangle::new(
        Point(i32::MIN, i32::MIN),
        Point(i32::MAX, i32::MIN),
        Point(i32::MIN, i32::MAX),
    );
    assert!(t.contains(Point(i32::MIN + 1, i32::MIN + 1)));
    assert!(!t.contains(Point(i32::MAX, i32::MAX)));
    assert!(t.contains(Point(-1, 0)));
    assert!(!t.contains(Point(1, 1)));
}

#[test]
fn area_is_counted_in_halves() {
    assert_eq!(Triangle::area(Point(0, 0), Point(4, 0), Point(0, 3)), 12);
    assert_eq!(Triangle::area(Point(0, 0), Point(0, 3), Point(4, 0)), -12);
    assert_eq!(Triangle::area(Point(0, 0), Point(1, 0), Point(0, 1)), 1);
    assert_eq!(Triangle::area(Point(1, 1), Point(2, 2), Point(3, 3)), 0);
}

#[test]
fn the_walk_scans_the_box_row_by_row() {
    let t = Triangle::new(Point(0, 0), Point(2, 0), Point(0, 2));
    assert_eq!(collect(&t), vec![Point(1, 0), Point(0, 1), Point(1, 1)]);
}

#[test]
fn the_walk_passes_over_the_first_cell_and_the_far_borders() {
    let t = Triangle::new(Point(2, 3), Point(6, 3), Point(2, 7));
    let points = collect(&t);
    assert!(!points.contains(&Point(2, 3)));
    assert!(points.contains(&Point(3, 3)));
    assert!(points.iter().all(|p| p.0 < 6 && p.1 < 7));
    assert!(points.iter().all(|p| t.contains(*p)));
    assert_eq!(points.len(), 12);
    assert_eq!(points[0], Point(3, 3));
    assert_eq!(points[3], Point(2, 4));
}

#[test]
fn the_walk_stays_over_once_it_is_over() {
    let t = Triangle::new(Point(0, 0), Point(2, 0), Point(0, 2));
    let mut it = t.iter();
    while it.next().is_some() {}
    assert_eq!(it.next(), None);
    assert_eq!(it.next(), None);
}

#[test]
fn a_box_without_width_has_no_points() {
    let t = Triangle::new(Point(3, 0), Point(3, 5), Point(3, 9));
    assert_eq!(collect(&t), vec![]);
}
