use lowpoly::cache::Cache;
use lowpoly::pixel_group::Group;
use lowpoly::point::Point;
use std::cell::Cell;

#[test]
fn the_second_request_is_answered_from_the_cache() {
    let mut cache = Cache::new();
    let calls = Cell::new(0);
    let a = Point(1, 2);
    let b = Point(30, 4);
    let c = Point(5, 60);
    let first = cache.insert(a, b, c, || {
        calls.set(calls.get() + 1);
        Group { color: (1, 2, 3), fitness: 77 }
    });
    assert_eq!(first, Group { color: (1, 2, 3), fitness: 77 });
    assert_eq!(calls.get(), 1);
    let orders = [(a, b, c), (a, c, b), (b, a, c), (b, c, a), (c, a, b), (c, b, a)];
    for (p, q, r) in orders {
        let again = cache.insert(p, q, r, || {
            calls.set(calls.get() + 1);
            Group { color: (9, 9, 9), fitness: 1 }
        });
        assert_eq!(again, first);
    }
    assert_eq!(calls.get(), 1);
}

#[test]
fn different_triangles_are_kept_apart() {
    let mut cache = Cache::new();
    let g1 = cache.insert(Point(0, 0), Point(1, 0), Point(0, 1), || Group { color: (1, 1, 1), fitness: 1 });
    let g2 = cache.insert(Point(0, 0), Point(1, 0), Point(0, 2), || Group { color: (2, 2, 2), fitness: 2 });
    let g3 = cache.insert(Point(0, 0), Point(0, 1), Point(1, 0), || Group { color: (3, 3, 3), fitness: 3 });
    assert_eq!(g1.fitness, 1);
    assert_eq!(g2.fitness, 2);
    assert_eq!(g3.fitness, 1);
    assert_eq!(cache.get(Point(0, 2), Point(0, 0), Point(1, 0)), Some(g2));
    assert_eq!(cache.get(Point(5, 5), Point(0, 0), Point(1, 0)), None);
}

#[test]
fn keys_tell_points_with_swapped_or_negative_coordinates_apart() {
    let mut cache = Cache::new();
    cache.insert(Point(1, 2), Point(3, 4), Point(5, 6), || Group { color: (1, 1, 1), fitness: 1 });
    assert_eq!(cache.get(Point(2, 1), Point(3, 4), Point(5, 6)), None);
    assert_eq!(cache.get(Point(-1, 2), Point(3, 4), Point(5, 6)), None);
    assert_eq!(cache.get(Point(1, 2), Point(3, 4), Point(6, 5)), None);
    let far = cache.insert(
        Point(i32::MIN, i32::MAX),
        Point(i32::MAX, i32::MIN),
        Point(-1, -1),
        || Group { color: (7, 7, 7), fitness: 7 },
    );
    assert_eq!(
        cache.get(Point(-1, -1), Point(i32::MIN, i32::MAX), Point(i32::MAX, i32::MIN)),
        Some(far)
    );
    assert_eq!(cache.get(Point(-1, -1), Point(i32::MAX, i32::MAX), Point(i32::MAX, i32::MIN)), None);
}
