use lowpoly::cache::Cache;
use lowpoly::config::Config;
use lowpoly::face::Face;
use lowpoly::generation::{Generation, Population, MISSING};
use lowpoly::grid::get_points;
use lowpoly::img::Img;
use lowpoly::pixel_group::FITNESS_ONE;
use lowpoly::point::Point;
use lowpoly::selection::{choose_points, sort_faces};
use lowpoly::triangle::Triangle;
use lowpoly::triangulation::{delaunay, MeshError, COORD_LIMIT};

fn uniform(width: u32, height: u32, color: (u8, u8, u8), points: usize) -> Img {
    let mut data = vec![];
    for _ in 0..width * height {
        data.push(color.0);
        data.push(color.1);
        data.push(color.2);
    }
    Img::new(width, height, data, points).unwrap()
}

fn halves(width: u32, height: u32, points: usize) -> Img {
    let mut data = vec![];
    for _y in 0..height {
        for x in 0..width {
            let v = if x < width / 2 { 20 } else { 220 };
            data.push(v);
            data.push(v);
            data.push(v);
        }
    }
    Img::new(width, height, data, points).unwrap()
}

fn covered(face: &Face, width: i32, height: i32) -> u64 {
    let mut it = face.triangle.iter();
    let mut n = 0;
    while let Some(p) = it.next() {
        if 0 <= p.0 && p.0 < width && 0 <= p.1 && p.1 < height {
            n += 1;
        }
    }
    n
}

fn ranked_face(fitness: u64, ids: (usize, usize, usize), at: i32) -> Face {
    Face {
        points: ids,
        color: (0, 0, 0),
        fitness,
        triangle: Triangle::new(Point(at, 2), Point(at + 1, 1), Point(at + 2, 0)),
    }
}

#[test]
fn triangles_keep_to_the_points_that_they_were_made_over() {
    let points = vec![(0, 0), (10, 0), (0, 10), (10, 10), (5, 5)];
    let triangles = delaunay(&points);
    assert_eq!(triangles.len(), 4);
    for t in &triangles {
        assert!(points.contains(&t.0));
        assert!(points.contains(&t.1));
        assert!(points.contains(&t.2));
        assert!(t.0 == (5, 5) || t.1 == (5, 5) || t.2 == (5, 5));
        assert!(t.0 != t.1 && t.0 != t.2 && t.1 != t.2);
    }
}

#[test]
fn every_face_of_a_mesh_has_three_vertices_at_its_three_corners() {
    let img = halves(40, 40, 9);
    let points = get_points(img.dimensions(), 3);
    let mut generation = Generation::from(points, &img, Cache::new(), Config::new()).unwrap();
    let population = generation.get_best_population().unwrap();
    assert_eq!(population.faces.len(), 8);
    for face in &population.faces {
        let (a, b, c) = face.points;
        assert!(a != b && a != c && b != c);
        let (v0, v1, v2) = face.triangle.vertices();
        assert!(v0 != v1 && v0 != v2 && v1 != v2);
        assert_eq!(population.points[a], v0.values());
        assert_eq!(population.points[b], v1.values());
        assert_eq!(population.points[c], v2.values());
    }
}

#[test]
fn points_on_a_line_have_no_triangles() {
    assert_eq!(delaunay(&vec![(0, 0), (5, 5), (9, 9), (2, 2)]).len(), 0);
    assert_eq!(delaunay(&vec![(0, 0), (5, 5)]).len(), 0);
    assert_eq!(delaunay(&vec![]).len(), 0);
}

#[test]
fn coordinates_at_the_limit_are_triangulated() {
    let l = COORD_LIMIT;
    let triangles = delaunay(&vec![(-l, -l), (l, -l), (-l, l), (l, l), (0, 0), (l, 0), (-l, 0)]);
    assert_eq!(triangles.len(), 6);
}

#[test]
fn a_uniform_picture_of_two_by_two_pixels_gives_two_faces_of_full_fitness() {
    let img = uniform(2, 2, (40, 50, 60), 4);
    let config = Config { min_total_pixels: 1, ..Config::new() };
    let corners = vec![(0, 0), (2, 0), (0, 2), (2, 2)];
    let mut gen = Generation::from(corners.clone(), &img, Cache::new(), config).unwrap();
    let population = gen.get_best_population().unwrap();
    assert_eq!(population.faces.len(), 2);
    for face in &population.faces {
        assert_eq!(face.color, (40, 50, 60));
        let pixels = covered(face, 2, 2);
        assert!(pixels >= 1);
        assert_eq!(face.fitness, pixels * FITNESS_ONE);
    }
    let mut chosen = population.points.clone();
    chosen.sort();
    assert_eq!(chosen, vec![(0, 0), (0, 2), (2, 0), (2, 2)]);
}

#[test]
fn a_generation_starts_with_the_mesh_of_the_base() {
    let img = uniform(20, 20, (40, 50, 60), 5);
    let points = vec![(0, 0), (20, 0), (0, 20), (20, 20), (10, 10)];
    let gen = Generation::from(points.clone(), &img, Cache::new(), Config::new()).unwrap();
    assert_eq!(gen.base(), points);
    let best = gen.get_best_points();
    assert_eq!(best.len(), 5);
    for p in &points {
        assert!(best.contains(p));
    }
}

#[test]
fn a_picture_that_is_too_large_has_no_generation() {
    let img = Img::new(COORD_LIMIT as u32 + 1, 0, vec![], 4).unwrap();
    let result = Generation::from(vec![(0, 0)], &img, Cache::new(), Config::new());
    assert_eq!(result.err(), Some(MeshError::PictureTooLarge));
    let img = Img::new(0, COORD_LIMIT as u32 + 1, vec![], 4).unwrap();
    let result = Generation::from(vec![(0, 0), (0, 0)], &img, Cache::new(), Config::new());
    assert_eq!(result.err(), Some(MeshError::PictureTooLarge));
    let img = Img::new(COORD_LIMIT as u32, 0, vec![], 4).unwrap();
    assert!(Generation::from(vec![(0, 0)], &img, Cache::new(), Config::new()).is_ok());
}

#[test]
fn a_point_out_of_range_has_no_generation() {
    let img = uniform(20, 20, (40, 50, 60), 5);
    let points = vec![(0, 0), (COORD_LIMIT + 1, 0), (0, 0)];
    let result = Generation::from(points, &img, Cache::new(), Config::new());
    assert_eq!(result.err(), Some(MeshError::PointOutOfRange));
    let points = vec![(0, 0), (0, -COORD_LIMIT - 1)];
    let result = Generation::from(points, &img, Cache::new(), Config::new());
    assert_eq!(result.err(), Some(MeshError::PointOutOfRange));
    let points = vec![(COORD_LIMIT, -COORD_LIMIT)];
    assert!(Generation::from(points, &img, Cache::new(), Config::new()).is_ok());
}

#[test]
fn a_point_that_occurs_twice_has_no_generation() {
    let img = uniform(20, 20, (40, 50, 60), 5);
    let points = vec![(0, 0), (20, 0), (0, 20), (20, 0)];
    let result = Generation::from(points, &img, Cache::new(), Config::new());
    assert_eq!(result.err(), Some(MeshError::DuplicatePoint));
}

#[test]
fn a_generation_from_a_population_starts_at_its_points() {
    let img = uniform(20, 20, (40, 50, 60), 5);
    let previous = Population::new(vec![], vec![(0, 0), (20, 0), (0, 20), (7, 7)]);
    let gen = Generation::new(previous, &img, Cache::new(), Config::new()).unwrap();
    assert_eq!(gen.base(), vec![(0, 0), (20, 0), (0, 20), (7, 7)]);
    let previous = Population::new(vec![], vec![(1, 1), (1, 1)]);
    let result = Generation::new(previous, &img, Cache::new(), Config::new());
    assert_eq!(result.err(), Some(MeshError::DuplicatePoint));
}

#[test]
fn a_round_moves_the_vertices_that_hit() {
    let img = halves(40, 40, 5);
    let points = vec![(0, 0), (40, 0), (0, 40), (40, 40), (30, 20)];
    let mut gen = Generation::from(points, &img, Cache::new(), Config::new()).unwrap();
    let hits = vec![true, false, false, false, true];
    let deltas = vec![Point(5, 5), Point(1, 1), Point(1, 1), Point(1, 1), Point(-10, 0)];
    assert_eq!(gen.advance(&hits, &deltas), Ok(()));
    // the corner is pinned, the middle vertex moves onto the edge of the colours
    assert_eq!(gen.base(), vec![(0, 0), (40, 0), (0, 40), (40, 40), (30, 20)]);
    assert_eq!(gen.aggregate_beneficial_mutations(), Ok(()));
    let best = gen.get_best_points();
    assert_eq!(best.len(), 5);
    assert!(best.contains(&(20, 20)));
    assert!(!best.contains(&(30, 20)));
}

#[test]
fn a_round_in_which_two_vertices_meet_is_not_run() {
    let img = uniform(40, 40, (1, 2, 3), 5);
    let points = vec![(0, 0), (40, 0), (0, 40), (40, 40), (30, 20), (20, 20)];
    let mut gen = Generation::from(points.clone(), &img, Cache::new(), Config::new()).unwrap();
    let before = gen.get_best_points();
    let hits = vec![false, false, false, false, true];
    let deltas = vec![Point(0, 0), Point(0, 0), Point(0, 0), Point(0, 0), Point(-10, 0)];
    assert_eq!(gen.advance(&hits, &deltas), Err(MeshError::DuplicatePoint));
    assert_eq!(gen.base(), points);
    assert_eq!(gen.get_best_points(), before);
    // the generation goes on as if nothing had happened
    assert_eq!(gen.advance(&vec![], &vec![]), Ok(()));
}

#[test]
fn vertices_without_a_hit_or_a_step_stay() {
    let img = uniform(40, 40, (1, 2, 3), 5);
    let points = vec![(0, 0), (40, 0), (0, 40), (40, 40), (30, 20)];
    let mut gen = Generation::from(points.clone(), &img, Cache::new(), Config::new()).unwrap();
    assert_eq!(gen.advance(&vec![true, true, true, true, true], &vec![]), Ok(()));
    assert_eq!(gen.advance(&vec![], &vec![Point(3, 3); 5]), Ok(()));
    assert_eq!(gen.aggregate_beneficial_mutations(), Ok(()));
    let mut best = gen.get_best_points();
    best.sort();
    let mut expected = points.clone();
    expected.sort();
    assert_eq!(best, expected);
}

#[test]
fn mutate_runs_the_rounds_and_closes_them() {
    let img = halves(40, 40, 9);
    let points = vec![(0, 0), (20, 0), (40, 0), (0, 20), (17, 23), (40, 20), (0, 40), (20, 40), (40, 40)];
    let always = Config { mutation_odds: (1, 1), ..Config::new() };
    let mut gen = Generation::from(points.clone(), &img, Cache::new(), always).unwrap();
    let mut round = vec![Point(0, 0); 9];
    round[4] = Point(3, -3);
    let deltas = vec![round.clone(), round.clone(), round];
    assert_eq!(gen.mutate(3, &deltas), Ok(()));
    assert_eq!(gen.base(), points);
    let best = gen.get_best_points();
    assert_eq!(best.len(), 9);
    assert!(best.contains(&(20, 20)));
    let next = gen.get_best_population().unwrap();
    assert_eq!(next.points, best);
    assert_eq!(next.faces.len(), 8);
}

#[test]
fn mutate_with_odds_of_none_keeps_every_vertex() {
    let img = halves(40, 40, 5);
    let points = vec![(0, 0), (40, 0), (0, 40), (40, 40), (30, 20)];
    let never = Config { mutation_odds: (0, 1), ..Config::new() };
    let mut gen = Generation::from(points.clone(), &img, Cache::new(), never).unwrap();
    assert_eq!(gen.mutate(2, &vec![vec![Point(-10, 0); 5], vec![Point(-10, 0); 5]]), Ok(()));
    let mut best = gen.get_best_points();
    best.sort();
    let mut expected = points.clone();
    expected.sort();
    assert_eq!(best, expected);
}

#[test]
fn mutate_ends_at_a_round_in_which_two_vertices_meet() {
    let img = uniform(40, 40, (1, 2, 3), 6);
    let points = vec![(0, 0), (40, 0), (0, 40), (40, 40), (30, 20), (20, 20)];
    let always = Config { mutation_odds: (1, 1), ..Config::new() };
    let mut gen = Generation::from(points, &img, Cache::new(), always).unwrap();
    let mut round = vec![Point(0, 0); 6];
    round[4] = Point(-10, 0);
    assert_eq!(gen.mutate(1, &vec![round]), Err(MeshError::DuplicatePoint));
}

#[test]
fn the_fittest_faces_come_first_and_equals_keep_their_order() {
    let faces = vec![
        ranked_face(5, (0, 1, 2), 0),
        ranked_face(9, (3, 4, 5), 10),
        ranked_face(5, (6, 7, 8), 20),
        ranked_face(7, (9, 10, 11), 30),
        ranked_face(9, (12, 13, 14), 40),
    ];
    let sorted = sort_faces(&faces);
    let order: Vec<(u64, usize)> = sorted.iter().map(|f| (f.fitness, f.points.0)).collect();
    assert_eq!(order, vec![(9, 3), (9, 12), (7, 9), (5, 0), (5, 6)]);
}

#[test]
fn the_best_points_are_four_vertices_of_the_fittest_faces() {
    // the faces of the highest fitness share their vertices
    let faces = vec![
        ranked_face(10, (7, 8, 9), 0),
        ranked_face(50, (0, 1, 2), 10),
        ranked_face(40, (0, 1, 2), 20),
        ranked_face(30, (1, 2, 0), 30),
        ranked_face(45, (2, 0, 1), 40),
        ranked_face(20, (1, 3, 4), 50),
        ranked_face(35, (0, 2, 1), 60),
    ];
    let points = choose_points(&faces, 4);
    // the three corners of the fittest face, as its triangle keeps them,
    // then the first fresh vertex of the fittest face that has one
    assert_eq!(points, vec![(10, 2), (11, 1), (12, 0), (51, 1)]);
}

#[test]
fn the_best_points_stop_at_the_target_in_the_middle_of_a_face() {
    let faces = vec![ranked_face(10, (0, 1, 2), 0), ranked_face(9, (3, 4, 5), 10)];
    assert_eq!(choose_points(&faces, 2), vec![(0, 2), (1, 1)]);
    assert_eq!(choose_points(&faces, 0), vec![]);
    assert_eq!(choose_points(&faces, 9).len(), 6);
    assert_eq!(choose_points(&vec![], 4), vec![]);
}

#[test]
fn the_painted_mesh_of_a_uniform_picture_is_uniform() {
    let img = uniform(2, 2, (40, 50, 60), 4);
    let config = Config { min_total_pixels: 1, ..Config::new() };
    let mut gen = Generation::from(vec![(0, 0), (2, 0), (0, 2), (2, 2)], &img, Cache::new(), config).unwrap();
    let population = gen.get_best_population().unwrap();
    let buffer = gen.write(&population);
    assert_eq!(buffer, vec![40, 50, 60, 40, 50, 60, 40, 50, 60, 40, 50, 60]);
}

#[test]
fn a_pixel_without_a_face_takes_the_colour_of_a_neighbour() {
    let img = uniform(4, 4, (40, 50, 60), 4);
    let gen = Generation::from(vec![(0, 0), (4, 0), (0, 4), (4, 4)], &img, Cache::new(), Config::new()).unwrap();
    let face = Face {
        points: (0, 1, 2),
        color: (1, 2, 3),
        fitness: 0,
        triangle: Triangle::new(Point(1, 1), Point(2, 1), Point(1, 2)),
    };
    let population = Population::new(vec![face], vec![]);
    let buffer = gen.write(&population);
    assert_eq!(buffer.len(), 48);
    let pixel = |x: usize, y: usize| (buffer[3 * (4 * y + x)], buffer[3 * (4 * y + x) + 1], buffer[3 * (4 * y + x) + 2]);
    assert_eq!(pixel(0, 0), MISSING);
    assert_eq!(pixel(1, 0), MISSING);
    assert_eq!(pixel(0, 3), MISSING);
    assert_eq!(pixel(1, 1), (1, 2, 3));
    assert_eq!(pixel(2, 1), (1, 2, 3));
    assert_eq!(pixel(1, 2), (1, 2, 3));
    // (2, 2) is not covered; its neighbour (1, 1) is
    assert_eq!(pixel(2, 2), (1, 2, 3));
    assert_eq!(pixel(3, 3), (1, 2, 3));
    // (3, 2) goes to (2, 1); (3, 1) goes to (2, 0), (1, 0), (0, 0)
    assert_eq!(pixel(3, 2), (1, 2, 3));
    assert_eq!(pixel(3, 1), MISSING);
    assert_eq!(MISSING, (0, 255, 255));
}

#[test]
fn a_mesh_without_faces_is_painted_in_the_missing_colour() {
    let img = uniform(2, 1, (40, 50, 60), 4);
    let gen = Generation::from(vec![], &img, Cache::new(), Config::new()).unwrap();
    let buffer = gen.write(&Population::new(vec![], vec![]));
    assert_eq!(buffer, vec![0, 255, 255, 0, 255, 255]);
}

#[test]
fn the_cache_is_handed_on() {
    let img = uniform(20, 20, (40, 50, 60), 5);
    let points = vec![(0, 0), (20, 0), (0, 20)];
    let gen = Generation::from(points, &img, Cache::new(), Config::new()).unwrap();
    let cache = gen.into_cache();
    assert!(cache.get(Point(0, 20), Point(20, 0), Point(0, 0)).is_some());
    assert!(cache.get(Point(0, 20), Point(20, 0), Point(1, 0)).is_none());
}

#[test]
fn a_search_runs_through_generations() {
    let img = halves(40, 40, 9);
    let config = Config { mutation_odds: (1, 1), ..Config::new() };
    let points = get_points(img.dimensions(), 3);
    let mut generation = Generation::from(points, &img, Cache::new(), config).unwrap();
    let mut previous = generation.get_best_population().unwrap();
    assert_eq!(previous.points.len(), 9);
    assert_eq!(previous.faces.len(), 8);
    let mut cache = generation.into_cache();
    for g in 0..3 {
        let vertices = previous.points.len();
        let mut generation = Generation::new(previous, &img, cache, config).unwrap();
        let steps: Vec<Vec<Point>> = (0..3)
            .map(|r| {
                (0..vertices)
                    .map(|i| Point(((i * 7 + r * 3 + g) % 5) as i32 - 2, ((i * 5 + r) % 5) as i32 - 2))
                    .collect()
            })
            .collect();
        assert_eq!(generation.mutate(3, &steps), Ok(()));
        previous = generation.get_best_population().unwrap();
        assert_eq!(previous.points.len(), 9);
        for corner in [(0, 0), (40, 0), (0, 40), (40, 40)] {
            assert!(previous.points.contains(&corner));
        }
        let buffer = generation.write(&previous);
        assert_eq!(buffer.len(), 40 * 40 * 3);
        for pixel in buffer.chunks(3) {
            assert_ne!((pixel[0], pixel[1], pixel[2]), MISSING);
        }
        cache = generation.into_cache();
    }
}
