use lowpoly::cache::Cache;
use lowpoly::config::Config;
use lowpoly::face::{face_group, Face, FaceFinder};
use lowpoly::img::Img;
use lowpoly::member::{Member, MemberType};
use lowpoly::pixel_group::FITNESS_ONE;
use lowpoly::point::Point;
use lowpoly::triangle::Triangle;

fn uniform(width: u32, height: u32, color: (u8, u8, u8)) -> Img {
    let mut data = vec![];
    for _ in 0..width * height {
        data.push(color.0);
        data.push(color.1);
        data.push(color.2);
    }
    Img::new(width, height, data, 4).unwrap()
}

fn striped(width: u32, height: u32) -> Img {
    let mut data = vec![];
    for y in 0..height {
        for x in 0..width {
            data.push(x as u8);
            data.push(y as u8);
            data.push(200);
        }
    }
    Img::new(width, height, data, 4).unwrap()
}

fn plain_face(a: Point, b: Point, c: Point) -> Face {
    Face { points: (0, 1, 2), color: (a.0 as u8, a.1 as u8, 0), fitness: 0, triangle: Triangle::new(a, b, c) }
}

#[test]
fn a_picture_needs_three_bytes_for_each_pixel() {
    assert!(Img::new(2, 2, vec![0; 12], 4).is_some());
    assert!(Img::new(2, 2, vec![0; 13], 4).is_some());
    assert!(Img::new(2, 2, vec![0; 11], 4).is_none());
    assert!(Img::new(0, 5, vec![], 4).is_some());
    assert!(Img::new(u32::MAX, u32::MAX, vec![0; 12], 4).is_none());
}

#[test]
fn a_picture_hands_out_its_pixels_row_by_row() {
    let img = striped(3, 2);
    assert_eq!(img.dimensions(), (3, 2));
    assert_eq!(img.points(), 4);
    assert_eq!(img.get_pixel(0, 0), (0, 0, 200));
    assert_eq!(img.get_pixel(2, 0), (2, 0, 200));
    assert_eq!(img.get_pixel(0, 1), (0, 1, 200));
    assert_eq!(img.get_pixel(2, 1), (2, 1, 200));
}

#[test]
fn the_group_of_a_face_comes_from_the_pixels_that_it_covers() {
    let img = uniform(20, 20, (9, 8, 7));
    let t = Triangle::new(Point(0, 0), Point(10, 0), Point(0, 10));
    let g = face_group(&t, &img, &Config::new());
    assert_eq!(g.color, (9, 8, 7));
    // the triangle covers 66 lattice points; the walk passes over the first
    // cell and over the far borders of the box
    assert_eq!(g.fitness, 63 * FITNESS_ONE);
}

#[test]
fn pixels_outside_the_picture_are_passed_over() {
    let img = uniform(5, 5, (9, 8, 7));
    let t = Triangle::new(Point(-10, -10), Point(30, -10), Point(-10, 30));
    let g = face_group(&t, &img, &Config::new());
    assert_eq!(g.color, (9, 8, 7));
    assert_eq!(g.fitness, 25 * FITNESS_ONE);
}

#[test]
fn a_face_finds_its_vertices_and_pays_them() {
    let img = uniform(20, 20, (9, 8, 7));
    let mut cache = Cache::new();
    let config = Config::new();
    let mut members = vec![
        Member::new(0, MemberType::Base, (5, 5), (20, 20)),
        Member::new(1, MemberType::Base, (0, 10), (20, 20)),
        Member::new(2, MemberType::Base, (0, 0), (20, 20)),
        Member::new(3, MemberType::Base, (10, 0), (20, 20)),
    ];
    let face = Face::new(
        (Point(0, 0), Point(10, 0), Point(0, 10)),
        &mut members,
        0,
        &img,
        &mut cache,
        &config,
    );
    assert_eq!(face.triangle.vertices(), (Point(0, 10), Point(0, 0), Point(10, 0)));
    assert_eq!(face.points, (1, 2, 3));
    assert_eq!(face.color, (9, 8, 7));
    assert_eq!(face.fitness, 63 * FITNESS_ONE);
    assert_eq!(members[0].fitness, 0);
    assert_eq!(members[1].fitness, 63 * FITNESS_ONE);
    assert_eq!(members[2].fitness, 63 * FITNESS_ONE);
    assert_eq!(members[3].fitness, 63 * FITNESS_ONE);
    assert!(cache.get(Point(10, 0), Point(0, 10), Point(0, 0)).is_some());
}

#[test]
fn a_face_takes_what_the_cache_holds() {
    let img = uniform(20, 20, (9, 8, 7));
    let other = uniform(20, 20, (1, 1, 1));
    let mut cache = Cache::new();
    let config = Config::new();
    let mut members = vec![
        Member::new(0, MemberType::Base, (0, 10), (20, 20)),
        Member::new(1, MemberType::Base, (0, 0), (20, 20)),
        Member::new(2, MemberType::Base, (10, 0), (20, 20)),
    ];
    let corners = (Point(0, 0), Point(10, 0), Point(0, 10));
    let first = Face::new(corners, &mut members, 0, &img, &mut cache, &config);
    let second = Face::new(
        (Point(0, 10), Point(0, 0), Point(10, 0)),
        &mut members,
        0,
        &other,
        &mut cache,
        &config,
    );
    assert_eq!(second.color, first.color);
    assert_eq!(second.fitness, first.fitness);
    assert_eq!(members[0].fitness, 126 * FITNESS_ONE);
}

#[test]
fn a_face_pays_the_round_that_it_was_built_in() {
    let img = uniform(20, 20, (9, 8, 7));
    let mut cache = Cache::new();
    let config = Config::new();
    let mut members = vec![
        Member::new(0, MemberType::Base, (0, 10), (20, 20)),
        Member::new(1, MemberType::Base, (0, 0), (20, 20)),
        Member::new(2, MemberType::Base, (10, 0), (20, 20)),
    ];
    members[0].mutate_with(false, Point(0, 0));
    members[1].mutate_with(false, Point(0, 0));
    members[2].mutate_with(true, Point(2, 0));
    let face = Face::new(
        (Point(0, 0), Point(12, 0), Point(0, 10)),
        &mut members,
        1,
        &img,
        &mut cache,
        &config,
    );
    assert_eq!(face.points, (0, 1, 2));
    // the vertices that stayed drop what comes in for the round
    assert_eq!(members[0].fitness, 0);
    assert_eq!(members[1].fitness, 0);
    assert_eq!(members[2].fitness, 0);
    assert_eq!(members[2].mutation(1).unwrap().fitness, face.fitness);
    assert!(face.fitness > 0);
}

#[test]
fn the_first_vertex_at_a_corner_owns_it() {
    let img = uniform(20, 20, (9, 8, 7));
    let mut cache = Cache::new();
    let config = Config::new();
    let mut members = vec![
        Member::new(0, MemberType::Base, (0, 10), (20, 20)),
        Member::new(1, MemberType::Base, (0, 0), (20, 20)),
        Member::new(2, MemberType::Base, (0, 0), (20, 20)),
        Member::new(3, MemberType::Base, (10, 0), (20, 20)),
    ];
    let face = Face::new(
        (Point(0, 0), Point(10, 0), Point(0, 10)),
        &mut members,
        0,
        &img,
        &mut cache,
        &config,
    );
    assert_eq!(face.points, (0, 1, 3));
    assert_eq!(members[2].fitness, 0);
}

#[test]
fn the_finder_starts_from_the_face_that_it_found_last() {
    let faces = vec![
        plain_face(Point(0, 0), Point(10, 0), Point(0, 10)),
        plain_face(Point(10, 0), Point(10, 10), Point(0, 10)),
        plain_face(Point(10, 0), Point(20, 0), Point(10, 10)),
        plain_face(Point(20, 0), Point(20, 10), Point(10, 10)),
    ];
    let mut finder = FaceFinder::new(&faces);
    assert_eq!(finder.find(1, 1), Some(0));
    assert_eq!(finder.find(19, 9), Some(3));
    // (10, 10) is a corner of the faces 1, 2 and 3: the search from 3 finds 3
    assert_eq!(finder.find(10, 10), Some(3));
    // (10, 5) lies on the side between the faces 1 and 2: the search from 3
    // looks at 3, then at 2
    assert_eq!(finder.find(10, 5), Some(2));
    assert_eq!(finder.find(1, 1), Some(0));
    // from 0: looks at 0, then at 1
    assert_eq!(finder.find(10, 5), Some(1));
}

#[test]
fn the_finder_looks_behind_before_it_looks_ahead() {
    let faces = vec![
        plain_face(Point(0, 0), Point(10, 0), Point(0, 10)),
        plain_face(Point(50, 50), Point(60, 50), Point(50, 60)),
        plain_face(Point(0, 0), Point(10, 0), Point(0, 10)),
    ];
    let mut finder = FaceFinder::new(&faces);
    assert_eq!(finder.find(51, 51), Some(1));
    // the faces 0 and 2 both cover the pixel; from 1 the search looks at 1,
    // then at 2, then at 0
    assert_eq!(finder.find(1, 1), Some(2));
}

#[test]
fn the_finder_finds_nothing_where_no_face_is() {
    let faces = vec![plain_face(Point(0, 0), Point(10, 0), Point(0, 10))];
    let mut finder = FaceFinder::new(&faces);
    assert_eq!(finder.find(11, 11), None);
    assert_eq!(finder.find(1, 1), Some(0));
    let none: Vec<Face> = vec![];
    let mut empty = FaceFinder::new(&none);
    assert_eq!(empty.find(0, 0), None);
}

#[test]
fn a_picture_hands_out_its_bytes() {
    let img = striped(2, 2);
    assert_eq!(img.image(), vec![0, 0, 200, 1, 0, 200, 0, 1, 200, 1, 1, 200]);
}

#[test]
fn a_face_knows_its_corners() {
    let face = plain_face(Point(0, 0), Point(10, 0), Point(0, 10));
    assert!(face.has_vertex(Point(10, 0)));
    assert!(!face.has_vertex(Point(10, 10)));
    assert!(face.is_same((Point(0, 10), Point(0, 0), Point(10, 0))));
    assert!(!face.is_same((Point(0, 10), Point(0, 0), Point(10, 1))));
}

#[test]
fn a_face_hands_its_fitness_to_its_vertices() {
    let mut members = vec![
        Member::new(0, MemberType::Base, (0, 10), (20, 20)),
        Member::new(1, MemberType::Base, (0, 0), (20, 20)),
        Member::new(2, MemberType::Base, (10, 0), (20, 20)),
        Member::new(3, MemberType::Base, (5, 5), (20, 20)),
    ];
    let face = Face {
        points: (3, 0, 3),
        color: (0, 0, 0),
        fitness: 7,
        triangle: Triangle::new(Point(5, 5), Point(0, 10), Point(5, 5)),
    };
    face.move_fitness(&mut members, 0);
    assert_eq!(members[0].fitness, 7);
    assert_eq!(members[1].fitness, 0);
    assert_eq!(members[2].fitness, 0);
    assert_eq!(members[3].fitness, 14);
}
