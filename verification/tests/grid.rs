use lowpoly::grid::get_points;

#[test]
fn the_grid_reaches_from_corner_to_corner() {
    assert_eq!(
        get_points((100, 50), 3),
        vec![(0, 0), (0, 25), (0, 50), (50, 0), (50, 25), (50, 50), (100, 0), (100, 25), (100, 50)]
    );
}

#[test]
fn the_marks_of_the_grid_are_rounded_down() {
    let points = get_points((10, 7), 4);
    let columns: Vec<i32> = points.iter().step_by(4).map(|p| p.0).collect();
    let rows: Vec<i32> = points.iter().take(4).map(|p| p.1).collect();
    assert_eq!(columns, vec![0, 3, 6, 10]);
    assert_eq!(rows, vec![0, 2, 4, 7]);
    assert_eq!(points.len(), 16);
}

#[test]
fn a_grid_of_one_mark_is_the_first_corner() {
    assert_eq!(get_points((100, 50), 1), vec![(0, 0)]);
    assert_eq!(get_points((100, 50), 0), vec![]);
    assert_eq!(get_points((0, 0), 2), vec![(0, 0), (0, 0), (0, 0), (0, 0)]);
}

#[test]
fn the_standard_grid_has_its_corners_and_no_point_twice() {
    let mut points = get_points((640, 480), 35);
    assert_eq!(points.len(), 35 * 35);
    assert_eq!(points[0], (0, 0));
    assert_eq!(points[34], (0, 480));
    assert_eq!(points[35 * 34], (640, 0));
    assert_eq!(points[35 * 35 - 1], (640, 480));
    points.sort();
    points.dedup();
    assert_eq!(points.len(), 35 * 35);
}

#[test]
fn the_largest_picture_has_a_grid() {
    let points = get_points((i32::MAX as u32, i32::MAX as u32), 2);
    assert_eq!(points, vec![(0, 0), (0, i32::MAX), (i32::MAX, 0), (i32::MAX, i32::MAX)]);
}
