use lowpoly::point::Point;

#[test]
fn point_is_built_from_its_coordinates() {
    assert_eq!(Point::new(3, 4), Point(3, 4));
    assert_eq!(Point::from((5, 6)), Point(5, 6));
    assert_eq!(Point(7, 8).values(), (7, 8));
}

#[test]
fn mutate_moves_a_point_inside_the_picture() {
    let mut p = Point(10, 20);
    let moved = p.mutate(Point(3, -5), (100, 50));
    assert_eq!(moved, Point(13, 15));
    assert_eq!(p, Point(13, 15));
}

#[test]
fn mutate_clamps_to_the_far_border() {
    let mut p = Point(95, 45);
    assert_eq!(p.mutate(Point(30, 30), (100, 50)), Point(100, 50));
}

#[test]
fn mutate_clamps_to_zero() {
    let mut p = Point(5, 5);
    assert_eq!(p.mutate(Point(-30, -6), (100, 50)), Point(0, 0));
}

#[test]
fn mutate_pins_a_coordinate_at_zero() {
    let mut p = Point(0, 7);
    assert_eq!(p.mutate(Point(9, 1), (100, 50)), Point(0, 8));
    let mut q = Point(7, 0);
    assert_eq!(q.mutate(Point(1, 9), (100, 50)), Point(8, 0));
}

#[test]
fn mutate_pins_a_coordinate_at_the_far_border() {
    let mut p = Point(100, 7);
    assert_eq!(p.mutate(Point(-9, 1), (100, 50)), Point(100, 8));
    let mut q = Point(7, 50);
    assert_eq!(q.mutate(Point(1, -9), (100, 50)), Point(8, 50));
}

#[test]
fn mutate_never_leaves_the_picture() {
    let steps = [-1000, -7, -1, 0, 1, 7, 1000, i32::MAX, i32::MIN];
    let starts = [0, 1, 49, 50, 99, 100];
    for &x in &starts {
        for &y in &starts {
            for &dx in &steps {
                for &dy in &steps {
                    let mut p = Point(x, y);
                    let moved = p.mutate(Point(dx, dy), (100, 100));
                    assert!(0 <= moved.0 && moved.0 <= 100);
                    assert!(0 <= moved.1 && moved.1 <= 100);
                    if x == 0 || x == 100 {
                        assert_eq!(moved.0, x);
                    }
                    if y == 0 || y == 100 {
                        assert_eq!(moved.1, y);
                    }
                }
            }
        }
    }
}

#[test]
fn mutate_brings_a_point_from_outside_into_the_picture() {
    let mut p = Point(-5, 300);
    assert_eq!(p.mutate(Point(0, 0), (100, 100)), Point(0, 100));
}
