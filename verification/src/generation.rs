use vstd::prelude::*;
use crate::cache::Cache;
use crate::config::Config;
use crate::face::{found, views, Face, FaceFinder, FaceView};
use crate::img::Img;
use crate::member::{
    lemma_pulled_is_base_or_inside, should_mutate, Member, MemberType, MemberView, Variant,
};
use crate::pixel_group::{Color, Group};
use crate::point::{lemma_mutated_in_bounds, mutated, Point};
use crate::selection::{
    best_points, choose_points, corner_in, corner_of, lemma_best_points_are_corners,
};
use crate::triangulation::{
    all_within_limit, as_corners, build_faces, built, check_distinct, check_within_limit,
    all_three_corners, coherent, corners_are_owned, delaunay, delaunay_triangles, distinct,
    face_fits, face_views, face_within_limit, lemma_built, lemma_built_fits, lemma_built_is_true,
    lemma_built_within_limit, ready, round_points, same_place, same_places, three_corners,
    true_to_picture, within_limit, MeshError, Scene, COORD_LIMIT,
};

verus! {

/// A population in terms of plain values.
pub struct PopulationView {
    pub faces: Seq<FaceView>,
    pub points: Seq<(i32, i32)>,
}

/// The faces of one triangulation, with the points that it was made over.
pub struct Population {
    pub faces: Vec<Face>,
    pub points: Vec<(i32, i32)>,
}

impl Population {
    /// The population in terms of plain values.
    pub open spec fn view(&self) -> PopulationView {
        PopulationView { faces: face_views(self.faces@), points: self.points@ }
    }

    /// The population of the faces over the points.
    pub fn new(faces: Vec<Face>, points: Vec<(i32, i32)>) -> (population: Population)
        ensures
            population.faces == faces,
            population.points == points,
    {
        Population { faces, points }
    }
}

/// Every face of the mesh has the colour and the fitness that the picture
/// gives its triangle.
pub open spec fn mesh_is_true(population: PopulationView, img: &Img, config: Config) -> bool {
    forall|i: int|
        0 <= i < population.faces.len() ==> true_to_picture(
            #[trigger] population.faces[i],
            img,
            config,
        )
}

/// With a cache that is true to the picture, the triangulation of a round
/// gives a mesh that is true to the picture and leaves the cache true to
/// it.
pub proof fn lemma_triangulated_is_true(
    members: Seq<MemberView>,
    kept: Map<(Point, Point, Point), Group>,
    round: int,
    img: &Img,
    config: Config,
)
    requires
        coherent(kept, img, config),
    ensures
        coherent(triangulated(members, kept, round, img, config).kept, img, config),
        mesh_is_true(
            PopulationView {
                faces: triangulated(members, kept, round, img, config).faces,
                points: round_points(members, round),
            },
            img,
            config,
        ),
{
    lemma_built_is_true(
        as_corners(delaunay_triangles(round_points(members, round))),
        Scene { faces: Seq::empty(), members, kept },
        round,
        img,
        config,
    );
}

/// The scene after the vertices were triangulated where they stand in the
/// round and a face was built over each triangle.
pub open spec fn triangulated(
    members: Seq<MemberView>,
    kept: Map<(Point, Point, Point), Group>,
    round: int,
    img: &Img,
    config: Config,
) -> Scene {
    built(
        as_corners(delaunay_triangles(round_points(members, round))),
        Scene { faces: Seq::empty(), members, kept },
        round,
        img,
        config,
    )
}

/// Every corner of the triangles over the points is one of the points, and
/// no two corners of a triangle are the same point.
pub open spec fn triangles_keep_to(points: Seq<(i32, i32)>) -> bool {
    &&& corners_are_owned(as_corners(delaunay_triangles(points)), points)
    &&& all_three_corners(as_corners(delaunay_triangles(points)))
}

/// The mesh is a mesh over its points: the three vertices of every face
/// stand at its corners, which are three points, and are three vertices.
pub open spec fn well_meshed(population: PopulationView) -> bool {
    forall|i: int|
        0 <= i < population.faces.len() ==> face_fits(#[trigger] population.faces[i], population.points)
}

/// A triangulation whose triangles keep to the points of the round gives a
/// mesh over those points.
pub proof fn lemma_triangulated_well_meshed(
    members: Seq<MemberView>,
    kept: Map<(Point, Point, Point), Group>,
    round: int,
    img: &Img,
    config: Config,
)
    requires
        0 <= round,
        members.len() <= usize::MAX,
        ready(members, round),
        triangles_keep_to(round_points(members, round)),
    ensures
        well_meshed(
            PopulationView {
                faces: triangulated(members, kept, round, img, config).faces,
                points: round_points(members, round),
            },
        ),
{
    lemma_built_fits(
        as_corners(delaunay_triangles(round_points(members, round))),
        Scene { faces: Seq::empty(), members, kept },
        round,
        img,
        config,
    );
}

fn points_of(members: &Vec<Member>, round: usize) -> (points: Vec<(i32, i32)>)
    requires
        ready(views(members@), round as int),
    ensures
        points@ == round_points(views(members@), round as int),
{
    let mut points: Vec<(i32, i32)> = Vec::new();
    let mut i: usize = 0;
    while i < members.len()
        invariant
            i <= members@.len(),
            ready(views(members@), round as int),
            points@ == round_points(views(members@), round as int).take(i as int),
        decreases members.len() - i,
    {
        assert(views(members@)[i as int] == members@[i as int]@);
        points.push(members[i].values(round));
        assert(points@ =~= round_points(views(members@), round as int).take(i + 1));
        i = i + 1;
    }
    assert(points@ =~= round_points(views(members@), round as int));
    points
}

fn corners_of(triangles: &Vec<((i32, i32), (i32, i32), (i32, i32))>) -> (corners: Vec<
    (Point, Point, Point),
>)
    ensures
        corners@ == as_corners(triangles@),
{
    let mut corners: Vec<(Point, Point, Point)> = Vec::new();
    let mut i: usize = 0;
    while i < triangles.len()
        invariant
            i <= triangles@.len(),
            corners@ == as_corners(triangles@).take(i as int),
        decreases triangles.len() - i,
    {
        let t = triangles[i];
        corners.push((Point(t.0.0, t.0.1), Point(t.1.0, t.1.1), Point(t.2.0, t.2.1)));
        assert(corners@ =~= as_corners(triangles@).take(i + 1));
        i = i + 1;
    }
    assert(corners@ =~= as_corners(triangles@));
    corners
}

/// Triangulates the vertices where they stand in the round and builds a
/// face over each triangle.
///
/// There is no mesh where a vertex stands out of range, nor where two
/// vertices stand at one point; then nothing is changed.
pub fn triangulate(
    members: &mut Vec<Member>,
    round: usize,
    img: &Img,
    cache: &mut Cache,
    config: &Config,
) -> (result: Result<Population, MeshError>)
    requires
        config.wf(),
        ready(views(old(members)@), round as int),
    ensures
        ({
            let before = views(old(members)@);
            let points = round_points(before, round as int);
            match result {
                Ok(population) => {
                    let scene = triangulated(before, old(cache)@, round as int, img, *config);
                    &&& all_within_limit(points)
                    &&& distinct(points)
                    &&& triangles_keep_to(points)
                    &&& population@ == (PopulationView { faces: scene.faces, points })
                    &&& well_meshed(population@)
                    &&& views(final(members)@) == scene.members
                    &&& final(cache)@ == scene.kept
                },
                Err(e) => {
                    &&& !(all_within_limit(points) && distinct(points))
                    &&& e == if !all_within_limit(points) {
                        MeshError::PointOutOfRange
                    } else {
                        MeshError::DuplicatePoint
                    }
                    &&& final(members)@ == old(members)@
                    &&& final(cache)@ == old(cache)@
                },
            }
        }),
{
    let points = points_of(members, round);
    if !check_within_limit(&points) {
        return Err(MeshError::PointOutOfRange);
    }
    if !check_distinct(&points) {
        return Err(MeshError::DuplicatePoint);
    }
    let triangles = delaunay(&points);
    let corners = corners_of(&triangles);
    let count = members.len();
    proof {
        assert forall|t: int| 0 <= t < corners@.len() implies points@.contains(
            ((#[trigger] corners@[t]).0.0, corners@[t].0.1),
        ) && points@.contains((corners@[t].1.0, corners@[t].1.1)) && points@.contains(
            (corners@[t].2.0, corners@[t].2.1),
        ) by {
            assert(points@.contains(triangles@[t].0));
            assert(corners@[t].0 == Point(triangles@[t].0.0, triangles@[t].0.1));
            assert((corners@[t].0.0, corners@[t].0.1) == triangles@[t].0);
            assert((corners@[t].1.0, corners@[t].1.1) == triangles@[t].1);
            assert((corners@[t].2.0, corners@[t].2.1) == triangles@[t].2);
        }
        assert forall|t: int| 0 <= t < corners@.len() implies three_corners(#[trigger] corners@[t]) by {
            assert(triangles@[t].0 != triangles@[t].1);
            assert(corners@[t].0 == Point(triangles@[t].0.0, triangles@[t].0.1));
            assert(corners@[t].1 == Point(triangles@[t].1.0, triangles@[t].1.1));
            assert(corners@[t].2 == Point(triangles@[t].2.0, triangles@[t].2.1));
        }
        assert(views(members@).len() == count);
        lemma_triangulated_well_meshed(views(members@), cache@, round as int, img, *config);
    }
    let faces = build_faces(&corners, members, round, img, cache, config);
    Ok(Population { faces, points })
}

/// Fresh vertices at `points`, numbered in their order.
pub open spec fn seeded(points: Seq<(i32, i32)>, dimensions: (i32, i32)) -> Seq<MemberView> {
    Seq::new(
        points.len(),
        |i: int|
            MemberView {
                id: i as usize,
                source: MemberType::Base,
                point: Point(points[i].0, points[i].1),
                rounds: Seq::empty(),
                dimensions,
                fitness: 0,
            },
    )
}

/// Whether vertex `i` is to move: a vertex without an entry stays.
pub open spec fn hit_at(hits: Seq<bool>, i: int) -> bool {
    0 <= i < hits.len() && hits[i]
}

/// The step for vertex `i`: a vertex without an entry gets the step of
/// no length.
pub open spec fn step_at(deltas: Seq<Point>, i: int) -> Point {
    if 0 <= i < deltas.len() {
        deltas[i]
    } else {
        Point(0, 0)
    }
}

/// The vertices after each opened a round with its own hit and step.
pub open spec fn stepped(members: Seq<MemberView>, hits: Seq<bool>, deltas: Seq<Point>) -> Seq<
    MemberView,
> {
    Seq::new(members.len(), |i: int| members[i].tried(hit_at(hits, i), step_at(deltas, i)))
}

/// The vertices after each closed its rounds with a round for its merged
/// position.
pub open spec fn all_merged(members: Seq<MemberView>) -> Seq<MemberView> {
    Seq::new(members.len(), |i: int| members[i].merged())
}

/// Where a generation has got to: its vertices, what its cache holds, and
/// the meshes of its rounds.
pub struct Course {
    pub members: Seq<MemberView>,
    pub kept: Map<(Point, Point, Point), Group>,
    pub history: Seq<PopulationView>,
}

/// The course after the mesh of a new round was made over the vertices,
/// which have all opened the round already. There is none where two
/// vertices stand at one point.
pub open spec fn with_mesh(
    course: Course,
    members: Seq<MemberView>,
    img: &Img,
    config: Config,
) -> Option<Course> {
    let round = course.history.len() as int;
    let points = round_points(members, round);
    if distinct(points) {
        let scene = triangulated(members, course.kept, round, img, config);
        Some(
            Course {
                members: scene.members,
                kept: scene.kept,
                history: course.history.push(PopulationView { faces: scene.faces, points }),
            },
        )
    } else {
        None
    }
}

/// The course after one round with the hits and the steps that are given.
/// There is none where two vertices would come to stand at one point.
pub open spec fn after_round(
    course: Course,
    hits: Seq<bool>,
    deltas: Seq<Point>,
    img: &Img,
    config: Config,
) -> Option<Course> {
    with_mesh(course, stepped(course.members, hits, deltas), img, config)
}

/// The course after the rounds were closed. There is none where two
/// vertices would come to stand at one point.
pub open spec fn after_merge(course: Course, img: &Img, config: Config) -> Option<Course> {
    with_mesh(course, all_merged(course.members), img, config)
}

/// The hits of round `r`: a round without an entry has no hits.
pub open spec fn hits_of(hits: Seq<Seq<bool>>, r: int) -> Seq<bool> {
    if 0 <= r < hits.len() {
        hits[r]
    } else {
        Seq::empty()
    }
}

/// The steps of round `r`: a round without an entry has no steps.
pub open spec fn steps_of(deltas: Seq<Vec<Point>>, r: int) -> Seq<Point> {
    if 0 <= r < deltas.len() {
        deltas[r]@
    } else {
        Seq::empty()
    }
}

/// The course after up to `n` rounds, and whether all of them were run.
/// The rounds end at the first round in which two vertices would come to
/// stand at one point.
pub open spec fn after_rounds(
    course: Course,
    hits: Seq<Seq<bool>>,
    deltas: Seq<Vec<Point>>,
    n: nat,
    img: &Img,
    config: Config,
) -> (Course, bool)
    decreases n,
{
    if n == 0 {
        (course, true)
    } else {
        let sooner = after_rounds(course, hits, deltas, (n - 1) as nat, img, config);
        if !sooner.1 {
            sooner
        } else {
            match after_round(sooner.0, hits_of(hits, n - 1), steps_of(deltas, n - 1), img, config) {
                Some(next) => (next, true),
                None => (sooner.0, false),
            }
        }
    }
}

/// The course after `n` rounds that were closed, and whether it got that
/// far.
pub open spec fn after_mutation(
    course: Course,
    hits: Seq<Seq<bool>>,
    deltas: Seq<Vec<Point>>,
    n: nat,
    img: &Img,
    config: Config,
) -> (Course, bool) {
    let reached = after_rounds(course, hits, deltas, n, img, config);
    if !reached.1 {
        reached
    } else {
        match after_merge(reached.0, img, config) {
            Some(end) => (end, true),
            None => (reached.0, false),
        }
    }
}

/// The hits are what trials with the odds can give: with odds of all every
/// trial hits, with odds of none no trial does.
pub open spec fn obeys_odds(hits: Seq<Seq<bool>>, odds: (u32, u32)) -> bool {
    forall|r: int, i: int|
        0 <= r < hits.len() && 0 <= i < hits[r].len() ==> (odds.0 == odds.1 ==> (
        #[trigger] hits[r][i])) && (odds.0 == 0 ==> !hits[r][i])
}

proof fn lemma_after_rounds_prefix(
    course: Course,
    first: Seq<Seq<bool>>,
    second: Seq<Seq<bool>>,
    deltas: Seq<Vec<Point>>,
    n: nat,
    img: &Img,
    config: Config,
)
    requires
        forall|r: int| 0 <= r < n ==> hits_of(first, r) == hits_of(second, r),
    ensures
        after_rounds(course, first, deltas, n, img, config) == after_rounds(
            course,
            second,
            deltas,
            n,
            img,
            config,
        ),
    decreases n,
{
    if n > 0 {
        lemma_after_rounds_prefix(course, first, second, deltas, (n - 1) as nat, img, config);
        assert(hits_of(first, n - 1) == hits_of(second, n - 1));
    }
}

proof fn lemma_after_rounds_stuck(
    course: Course,
    hits: Seq<Seq<bool>>,
    deltas: Seq<Vec<Point>>,
    m: nat,
    n: nat,
    img: &Img,
    config: Config,
)
    requires
        m <= n,
        !after_rounds(course, hits, deltas, m, img, config).1,
    ensures
        after_rounds(course, hits, deltas, n, img, config) == after_rounds(
            course,
            hits,
            deltas,
            m,
            img,
            config,
        ),
    decreases n,
{
    if m < n {
        lemma_after_rounds_stuck(course, hits, deltas, m, (n - 1) as nat, img, config);
    }
}

/// Vertex number `index` of a generation after `rounds` rounds: it bears
/// its number, has been through every round, knows the size of the picture
/// and never stood out of range.
pub open spec fn fits(m: MemberView, index: int, rounds: int, dimensions: (i32, i32)) -> bool {
    &&& m.id == index
    &&& m.rounds.len() == rounds
    &&& m.dimensions == dimensions
    &&& forall|r: int| within_limit(((#[trigger] m.point_at(r)).0, m.point_at(r).1))
}

/// Every vertex fits its place in a generation after `rounds` rounds.
pub open spec fn all_fit(members: Seq<MemberView>, rounds: int, dimensions: (i32, i32)) -> bool {
    forall|i: int| 0 <= i < members.len() ==> fits(#[trigger] members[i], i, rounds, dimensions)
}

proof fn lemma_tried_fits(
    m: MemberView,
    index: int,
    rounds: int,
    dimensions: (i32, i32),
    hit: bool,
    delta: Point,
)
    requires
        fits(m, index, rounds, dimensions),
        0 <= rounds,
        0 <= dimensions.0 <= COORD_LIMIT,
        0 <= dimensions.1 <= COORD_LIMIT,
    ensures
        fits(m.tried(hit, delta), index, rounds + 1, dimensions),
        m.tried(hit, delta).point_at(rounds + 1) == if hit {
            mutated(m.point, delta, dimensions)
        } else {
            m.point
        },
{
    let after = m.tried(hit, delta);
    lemma_mutated_in_bounds(m.point, delta, dimensions);
    assert(within_limit((m.point_at(0).0, m.point_at(0).1)));
    assert forall|r: int| within_limit(((#[trigger] after.point_at(r)).0, after.point_at(r).1)) by {
        if 0 < r <= rounds {
            assert(after.rounds[r - 1] == m.rounds[r - 1]);
            assert(after.point_at(r) == m.point_at(r));
        } else if r == rounds + 1 {
        } else {
            assert(after.point_at(r) == m.point);
        }
    }
}

proof fn lemma_merged_fits(m: MemberView, index: int, rounds: int, dimensions: (i32, i32))
    requires
        fits(m, index, rounds, dimensions),
        0 <= rounds,
        0 <= dimensions.0 <= COORD_LIMIT,
        0 <= dimensions.1 <= COORD_LIMIT,
    ensures
        fits(m.merged(), index, rounds + 1, dimensions),
        m.merged().point_at(rounds + 1) == m.merged_point(),
{
    let after = m.merged();
    lemma_pulled_is_base_or_inside(
        m.rounds,
        m.fitness,
        crate::member::beneficial_total(m.rounds, m.fitness),
        m.point,
        m.dimensions,
    );
    assert(within_limit((m.point_at(0).0, m.point_at(0).1)));
    assert forall|r: int| within_limit(((#[trigger] after.point_at(r)).0, after.point_at(r).1)) by {
        if 0 < r <= rounds {
            assert(after.rounds[r - 1] == m.rounds[r - 1]);
            assert(after.point_at(r) == m.point_at(r));
        } else if r == rounds + 1 {
        } else {
            assert(after.point_at(r) == m.point);
        }
    }
}

proof fn lemma_same_place_fits(
    a: MemberView,
    b: MemberView,
    index: int,
    rounds: int,
    dimensions: (i32, i32),
)
    requires
        same_place(a, b),
        fits(b, index, rounds, dimensions),
    ensures
        fits(a, index, rounds, dimensions),
{
    assert forall|r: int| within_limit(((#[trigger] a.point_at(r)).0, a.point_at(r).1)) by {
        assert(a.point_at(r) == b.point_at(r));
    }
}

fn seed(points: &Vec<(i32, i32)>, dimensions: (i32, i32)) -> (members: Vec<Member>)
    ensures
        views(members@) == seeded(points@, dimensions),
{
    let mut members: Vec<Member> = Vec::new();
    let mut i: usize = 0;
    while i < points.len()
        invariant
            i <= points@.len(),
            members@.len() == i,
            forall|j: int| 0 <= j < i ==> (#[trigger] members@[j])@ == seeded(points@, dimensions)[j],
        decreases points.len() - i,
    {
        members.push(Member::new(i, MemberType::Base, points[i], dimensions));
        i = i + 1;
    }
    assert(views(members@) =~= seeded(points@, dimensions));
    members
}

/// Every corner of every face of the mesh is within `COORD_LIMIT` of zero.
pub open spec fn mesh_within_limit(population: PopulationView) -> bool {
    forall|i: int| 0 <= i < population.faces.len() ==> face_within_limit(#[trigger] population.faces[i])
}

/// A triangulation over points within the limit gives a mesh within the
/// limit.
pub proof fn lemma_triangulated_within_limit(
    members: Seq<MemberView>,
    kept: Map<(Point, Point, Point), Group>,
    round: int,
    img: &Img,
    config: Config,
)
    requires
        all_within_limit(round_points(members, round)),
        triangles_keep_to(round_points(members, round)),
    ensures
        mesh_within_limit(
            PopulationView {
                faces: triangulated(members, kept, round, img, config).faces,
                points: round_points(members, round),
            },
        ),
{
    lemma_built_within_limit(
        as_corners(delaunay_triangles(round_points(members, round))),
        Scene { faces: Seq::empty(), members, kept },
        round,
        img,
        config,
        round_points(members, round),
    );
}

/// The faces of meshes within the limit are within the limit.
pub proof fn lemma_gathered_within_limit(history: Seq<PopulationView>)
    requires
        forall|r: int| 0 <= r < history.len() ==> mesh_within_limit(#[trigger] history[r]),
    ensures
        forall|i: int|
            0 <= i < gathered(history).len() ==> face_within_limit(#[trigger] gathered(history)[i]),
    decreases history.len(),
{
    if history.len() > 0 {
        let sooner = history.drop_last();
        assert forall|r: int| 0 <= r < sooner.len() implies mesh_within_limit(#[trigger] sooner[r]) by {
            assert(sooner[r] == history[r]);
        }
        lemma_gathered_within_limit(sooner);
        let all = gathered(history);
        let last = history[history.len() - 1];
        assert(mesh_within_limit(last));
        assert forall|i: int| 0 <= i < all.len() implies face_within_limit(#[trigger] all[i]) by {
            if i < gathered(sooner).len() {
                assert(all[i] == gathered(sooner)[i]);
            } else {
                assert(all[i] == last.faces[i - gathered(sooner).len()]);
            }
        }
    }
}

/// The faces of all the meshes, mesh behind mesh.
pub open spec fn gathered(history: Seq<PopulationView>) -> Seq<FaceView>
    decreases history.len(),
{
    if history.len() == 0 {
        Seq::empty()
    } else {
        gathered(history.drop_last()) + history.last().faces
    }
}

/// The colour of a pixel that no face covers and that has no neighbour
/// towards the first pixel to take a colour from.
pub const MISSING: Color = (0, 255, 255);

/// The pixel next to `(x, y)` on the way to the first pixel.
pub open spec fn towards_origin(x: int, y: int) -> (int, int) {
    if x <= 0 {
        (x, y - 1)
    } else if y <= 0 {
        (x - 1, y)
    } else {
        (x - 1, y - 1)
    }
}

/// The colour of the pixel `(x, y)` and the face from which the next
/// search starts, for a search that starts from the face `start`.
///
/// The colour is the colour of the face that the search finds. Where no
/// face covers the pixel, it is the colour of the next pixel towards the
/// first pixel, and `MISSING` at the first pixel.
pub open spec fn shade(faces: Seq<Face>, start: int, x: int, y: int) -> (Color, int)
    decreases
            (if x > 0 {
                x
            } else {
                0
            }) + (if y > 0 {
                y
            } else {
                0
            }),
{
    match found(faces, start, Point(x as i32, y as i32)) {
        Some(i) => (faces[i].color, i),
        None => if x <= 0 && y <= 0 {
            (MISSING, start)
        } else {
            shade(faces, start, towards_origin(x, y).0, towards_origin(x, y).1)
        },
    }
}

/// The bytes of the first `count` pixels of a picture of the given width,
/// row by row, three for each pixel, and the face from which the search for
/// the next pixel starts.
pub open spec fn raster(faces: Seq<Face>, width: int, count: int) -> (Seq<u8>, int)
    decreases count,
{
    if count <= 0 {
        (Seq::empty(), 0)
    } else {
        let sooner = raster(faces, width, count - 1);
        let pixel = shade(faces, sooner.1, (count - 1) % width, (count - 1) / width);
        (sooner.0.push(pixel.0.0).push(pixel.0.1).push(pixel.0.2), pixel.1)
    }
}

fn gather(populations: &Vec<Population>) -> (faces: Vec<Face>)
    ensures
        face_views(faces@) == gathered(Seq::new(populations@.len(), |i: int| populations@[i]@)),
{
    let ghost history = Seq::new(populations@.len(), |i: int| populations@[i]@);
    let mut faces: Vec<Face> = Vec::new();
    let mut i: usize = 0;
    proof {
        assert(history.take(0) =~= Seq::<PopulationView>::empty());
        assert(face_views(faces@) =~= gathered(history.take(0)));
    }
    while i < populations.len()
        invariant
            i <= populations@.len(),
            history == Seq::new(populations@.len(), |i: int| populations@[i]@),
            face_views(faces@) == gathered(history.take(i as int)),
        decreases populations.len() - i,
    {
        let ghost before = face_views(faces@);
        let ghost more = face_views(populations@[i as int].faces@);
        let mut k: usize = 0;
        proof {
            assert(history.take(i + 1).drop_last() =~= history.take(i as int));
            assert(history.take(i + 1).last().faces == more);
            assert(before + more.take(0) =~= before);
        }
        while k < populations[i].faces.len()
            invariant
                i < populations@.len(),
                k <= populations@[i as int].faces@.len(),
                more == face_views(populations@[i as int].faces@),
                face_views(faces@) == before + more.take(k as int),
            decreases populations[i as int].faces.len() - k,
        {
            let ghost sofar = face_views(faces@);
            faces.push(populations[i].faces[k]);
            proof {
                assert(face_views(faces@) =~= sofar.push(more[k as int]));
                assert(before + more.take(k + 1) =~= (before + more.take(k as int)).push(
                    more[k as int],
                ));
            }
            k = k + 1;
        }
        proof {
            assert(more.take(more.len() as int) =~= more);
        }
        i = i + 1;
    }
    proof {
        assert(history.take(history.len() as int) =~= history);
    }
    faces
}

/// One run of the search: the vertices of the mesh, what they tried round
/// by round, and the meshes of the rounds.
pub struct Generation<'a> {
    base: Vec<Member>,
    img: &'a Img,
    populations: Vec<Population>,
    cache: Cache,
    config: Config,
}

/// The size of a picture as the bounds of a point.
pub open spec fn bounds_of(size: (u32, u32)) -> (i32, i32) {
    (size.0 as i32, size.1 as i32)
}

impl<'a> Generation<'a> {
    /// The vertices.
    pub closed spec fn members(&self) -> Seq<MemberView> {
        views(self.base@)
    }

    /// The picture that the mesh is fitted to.
    pub closed spec fn picture(&self) -> &Img {
        self.img
    }

    /// The meshes of the rounds so far; the first is the mesh of the base.
    pub closed spec fn history(&self) -> Seq<PopulationView> {
        Seq::new(self.populations@.len(), |i: int| self.populations@[i]@)
    }

    /// What the cache holds.
    pub closed spec fn kept(&self) -> Map<(Point, Point, Point), Group> {
        self.cache@
    }

    /// The numbers that the generation runs with.
    pub closed spec fn settings(&self) -> Config {
        self.config
    }

    /// Where the generation has got to.
    pub open spec fn course(&self) -> Course {
        Course { members: self.members(), kept: self.kept(), history: self.history() }
    }

    /// The generation is in order: the picture is not too large, there is a
    /// mesh for the base and one for every round since, and every vertex has
    /// been through every round.
    pub open spec fn wf(&self) -> bool {
        &&& self.settings().wf()
        &&& self.picture().size().0 <= COORD_LIMIT
        &&& self.picture().size().1 <= COORD_LIMIT
        &&& self.history().len() > 0
        &&& all_fit(self.members(), self.history().len() - 1, bounds_of(self.picture().size()))
        &&& forall|r: int|
            0 <= r < self.history().len() ==> mesh_within_limit(#[trigger] self.history()[r])
        &&& forall|r: int| 0 <= r < self.history().len() ==> well_meshed(#[trigger] self.history()[r])
    }

    /// The cache and the meshes of the generation are true to its picture.
    pub open spec fn faithful(&self) -> bool {
        &&& coherent(self.kept(), self.picture(), self.settings())
        &&& forall|r: int|
            0 <= r < self.history().len() ==> mesh_is_true(
                #[trigger] self.history()[r],
                self.picture(),
                self.settings(),
            )
    }

    /// Starts a generation with a vertex at each of the points and makes
    /// the mesh of the base.
    ///
    /// There is no generation where a side of the picture is longer than
    /// `COORD_LIMIT`, where a point is out of range, or where a point
    /// occurs twice.
    pub fn from(points: Vec<(i32, i32)>, img: &'a Img, cache: Cache, config: Config) -> (result:
        Result<Generation<'a>, MeshError>)
        requires
            config.wf(),
        ensures
            match result {
                Ok(generation) => {
                    let scene = triangulated(
                        seeded(points@, bounds_of(img.size())),
                        cache@,
                        0,
                        img,
                        config,
                    );
                    &&& img.size().0 <= COORD_LIMIT && img.size().1 <= COORD_LIMIT
                    &&& all_within_limit(points@)
                    &&& distinct(points@)
                    &&& generation.wf()
                    &&& generation.picture() == img
                    &&& generation.settings() == config
                    &&& generation.members() == scene.members
                    &&& generation.kept() == scene.kept
                    &&& generation.history() == seq![
                        PopulationView { faces: scene.faces, points: points@ },
                    ]
                    &&& coherent(cache@, img, config) ==> generation.faithful()
                },
                Err(e) => if img.size().0 > COORD_LIMIT || img.size().1 > COORD_LIMIT {
                    e == MeshError::PictureTooLarge
                } else if !all_within_limit(points@) {
                    e == MeshError::PointOutOfRange
                } else {
                    e == MeshError::DuplicatePoint && !distinct(points@)
                },
            },
    {
        let (width, height) = img.dimensions();
        if width > COORD_LIMIT as u32 || height > COORD_LIMIT as u32 {
            return Err(MeshError::PictureTooLarge);
        }
        let dimensions = (width as i32, height as i32);
        let count = points.len();
        let mut base = seed(&points, dimensions);
        let mut cache = cache;
        let ghost fresh = seeded(points@, dimensions);
        let ghost kept = cache@;
        proof {
            assert(round_points(fresh, 0) =~= points@);
            assert(ready(fresh, 0));
        }
        match triangulate(&mut base, 0, img, &mut cache, &config) {
            Ok(population) => {
                let mut populations: Vec<Population> = Vec::new();
                populations.push(population);
                let generation = Generation { base, img, populations, cache, config };
                proof {
                    let scene = triangulated(fresh, kept, 0, img, config);
                    assert(generation.history() =~= seq![
                        PopulationView { faces: scene.faces, points: points@ },
                    ]);
                    assert(generation.history()[0] == (PopulationView {
                        faces: scene.faces,
                        points: points@,
                    }));
                    lemma_triangulated_within_limit(fresh, kept, 0, img, config);
                    if coherent(kept, img, config) {
                        lemma_triangulated_is_true(fresh, kept, 0, img, config);
                    }
                    let corners = as_corners(delaunay_triangles(points@));
                    lemma_built(
                        corners,
                        Scene { faces: Seq::empty(), members: fresh, kept },
                        0,
                        img,
                        config,
                    );
                    assert forall|i: int| 0 <= i < scene.members.len() implies fits(
                        #[trigger] scene.members[i],
                        i,
                        0,
                        dimensions,
                    ) by {
                        assert(same_place(scene.members[i], fresh[i]));
                        assert(i < count);
                        assert(fresh[i].id == i);
                        assert forall|r: int|
                            within_limit(((#[trigger] fresh[i].point_at(r)).0, fresh[i].point_at(r).1)) by {
                            assert(fresh[i].point_at(r) == Point(points@[i].0, points@[i].1));
                            assert(within_limit(points@[i]));
                        }
                        lemma_same_place_fits(scene.members[i], fresh[i], i, 0, dimensions);
                    }
                }
                Ok(generation)
            },
            Err(e) => Err(e),
        }
    }

    /// Starts a generation from the points of the mesh that an earlier one
    /// chose.
    pub fn new(previous: Population, img: &'a Img, cache: Cache, config: Config) -> (result:
        Result<Generation<'a>, MeshError>)
        requires
            config.wf(),
        ensures
            match result {
                Ok(generation) => {
                    let scene = triangulated(
                        seeded(previous.points@, bounds_of(img.size())),
                        cache@,
                        0,
                        img,
                        config,
                    );
                    &&& img.size().0 <= COORD_LIMIT && img.size().1 <= COORD_LIMIT
                    &&& all_within_limit(previous.points@)
                    &&& distinct(previous.points@)
                    &&& generation.wf()
                    &&& generation.picture() == img
                    &&& generation.settings() == config
                    &&& generation.members() == scene.members
                    &&& generation.kept() == scene.kept
                    &&& generation.history() == seq![
                        PopulationView { faces: scene.faces, points: previous.points@ },
                    ]
                    &&& coherent(cache@, img, config) ==> generation.faithful()
                },
                Err(e) => if img.size().0 > COORD_LIMIT || img.size().1 > COORD_LIMIT {
                    e == MeshError::PictureTooLarge
                } else if !all_within_limit(previous.points@) {
                    e == MeshError::PointOutOfRange
                } else {
                    e == MeshError::DuplicatePoint && !distinct(previous.points@)
                },
            },
    {
        Generation::from(previous.points, img, cache, config)
    }

    /// Hands the cache on, for the next generation.
    pub fn into_cache(self) -> (cache: Cache)
        ensures
            cache@ == self.kept(),
    {
        self.cache
    }

    /// Where the vertices stand at their base.
    pub fn base(&self) -> (points: Vec<(i32, i32)>)
        ensures
            points@ == round_points(self.members(), 0),
    {
        points_of(&self.base, 0)
    }

    /// Makes the mesh of a new round over the vertices, which have all
    /// opened the round already, and puts it behind the others.
    fn close_round(&mut self)
        requires
            old(self).settings().wf(),
            old(self).picture().size().0 <= COORD_LIMIT,
            old(self).picture().size().1 <= COORD_LIMIT,
            old(self).history().len() > 0,
            all_fit(
                old(self).members(),
                old(self).history().len() as int,
                bounds_of(old(self).picture().size()),
            ),
            distinct(round_points(old(self).members(), old(self).history().len() as int)),
            forall|r: int|
                0 <= r < old(self).history().len() ==> mesh_within_limit(
                    #[trigger] old(self).history()[r],
                ),
            forall|r: int|
                0 <= r < old(self).history().len() ==> well_meshed(#[trigger] old(self).history()[r]),
        ensures
            final(self).wf(),
            final(self).picture() == old(self).picture(),
            final(self).settings() == old(self).settings(),
            final(self).members().len() == old(self).members().len(),
            old(self).faithful() ==> final(self).faithful(),
            Some(final(self).course()) == with_mesh(
                old(self).course(),
                old(self).members(),
                old(self).picture(),
                old(self).settings(),
            ),
    {
        let round = self.populations.len();
        let ghost start = self.members();
        let ghost kept = self.kept();
        let ghost past = self.history();
        let ghost dimensions = bounds_of(self.picture().size());
        let ghost points = round_points(start, round as int);
        proof {
            assert forall|j: int| 0 <= j < start.len() implies round <= (
            #[trigger] start[j]).rounds.len() by {
                assert(fits(start[j], j, round as int, dimensions));
            }
            assert forall|i: int| 0 <= i < points.len() implies within_limit(
                #[trigger] points[i],
            ) by {
                assert(fits(start[i], i, round as int, dimensions));
                assert(within_limit((start[i].point_at(round as int).0, start[i].point_at(round as int).1)));
            }
        }
        match triangulate(&mut self.base, round, self.img, &mut self.cache, &self.config) {
            Ok(population) => {
                self.populations.push(population);
                proof {
                    let scene = triangulated(start, kept, round as int, self.img, self.config);
                    assert(self.history() =~= past.push(
                        PopulationView { faces: scene.faces, points },
                    ));
                    lemma_triangulated_within_limit(start, kept, round as int, self.img, self.config);
                    assert forall|r: int| 0 <= r < self.history().len() implies mesh_within_limit(
                        #[trigger] self.history()[r],
                    ) by {
                        if r < past.len() {
                            assert(self.history()[r] == past[r]);
                        }
                    }
                    assert forall|r: int| 0 <= r < self.history().len() implies well_meshed(
                        #[trigger] self.history()[r],
                    ) by {
                        if r < past.len() {
                            assert(self.history()[r] == past[r]);
                        }
                    }
                    if old(self).faithful() {
                        lemma_triangulated_is_true(start, kept, round as int, self.img, self.config);
                        assert forall|r: int| 0 <= r < self.history().len() implies mesh_is_true(
                            #[trigger] self.history()[r],
                            self.picture(),
                            self.settings(),
                        ) by {
                            if r < past.len() {
                                assert(self.history()[r] == past[r]);
                            }
                        }
                    }
                    lemma_built(
                        as_corners(delaunay_triangles(points)),
                        Scene { faces: Seq::empty(), members: start, kept },
                        round as int,
                        self.img,
                        self.config,
                    );
                    assert forall|i: int| 0 <= i < scene.members.len() implies fits(
                        #[trigger] scene.members[i],
                        i,
                        round as int,
                        dimensions,
                    ) by {
                        assert(same_place(scene.members[i], start[i]));
                        lemma_same_place_fits(
                            scene.members[i],
                            start[i],
                            i,
                            round as int,
                            dimensions,
                        );
                    }
                }
            },
            Err(_) => {
                // The points are within the limit and no two of them are the
                // same: there is a mesh.
                assert(false);
            },
        }
    }

    /// Runs one round with the hits and the steps that are given: vertex
    /// number `i` tries the step `deltas[i]` from its base if `hits[i]`
    /// says so, and stays otherwise; then the mesh of the round is made.
    ///
    /// Where two vertices would come to stand at one point the round is not
    /// run, and nothing is changed.
    pub fn advance(&mut self, hits: &Vec<bool>, deltas: &Vec<Point>) -> (result: Result<
        (),
        MeshError,
    >)
        requires
            old(self).wf(),
        ensures
            final(self).wf(),
            final(self).picture() == old(self).picture(),
            final(self).settings() == old(self).settings(),
            final(self).members().len() == old(self).members().len(),
            old(self).faithful() ==> final(self).faithful(),
            match after_round(
                old(self).course(),
                hits@,
                deltas@,
                old(self).picture(),
                old(self).settings(),
            ) {
                Some(next) => result is Ok && final(self).course() == next,
                None => result == Err::<(), MeshError>(MeshError::DuplicatePoint)
                    && final(self).course() == old(self).course(),
            },
    {
        let round = self.populations.len();
        let ghost start = self.members();
        let ghost dimensions = bounds_of(self.picture().size());
        let ghost tried = stepped(start, hits@, deltas@);
        let ghost points = round_points(tried, round as int);
        proof {
            assert forall|i: int| 0 <= i < start.len() implies fits(
                #[trigger] tried[i],
                i,
                round as int,
                dimensions,
            ) && tried[i].point_at(round as int) == if hit_at(hits@, i) {
                mutated(start[i].point, step_at(deltas@, i), dimensions)
            } else {
                start[i].point
            } by {
                assert(fits(start[i], i, round - 1, dimensions));
                lemma_tried_fits(
                    start[i],
                    i,
                    round - 1,
                    dimensions,
                    hit_at(hits@, i),
                    step_at(deltas@, i),
                );
            }
        }
        let mut tentative: Vec<(i32, i32)> = Vec::new();
        let mut i: usize = 0;
        while i < self.base.len()
            invariant
                i <= self.base@.len(),
                *self == *old(self),
                start == views(self.base@),
                tried == stepped(start, hits@, deltas@),
                points == round_points(tried, round as int),
                all_fit(start, round - 1, dimensions),
                forall|j: int|
                    0 <= j < start.len() ==> (#[trigger] tried[j]).point_at(round as int)
                        == if hit_at(hits@, j) {
                        mutated(start[j].point, step_at(deltas@, j), dimensions)
                    } else {
                        start[j].point
                    },
                tentative@ == points.take(i as int),
            decreases self.base.len() - i,
        {
            let hit = i < hits.len() && hits[i];
            let delta = if i < deltas.len() {
                deltas[i]
            } else {
                Point(0, 0)
            };
            proof {
                assert(start[i as int] == self.base@[i as int]@);
                assert(fits(start[i as int], i as int, round - 1, dimensions));
                assert(tried[i as int].point_at(round as int) == if hit {
                    mutated(start[i as int].point, delta, dimensions)
                } else {
                    start[i as int].point
                });
            }
            let mut at = self.base[i].point;
            if hit {
                at.mutate(delta, self.base[i].dimensions);
            }
            tentative.push(at.values());
            assert(tentative@ =~= points.take(i + 1));
            i = i + 1;
        }
        assert(tentative@ =~= points);
        if !check_distinct(&tentative) {
            return Err(MeshError::DuplicatePoint);
        }
        let mut k: usize = 0;
        while k < self.base.len()
            invariant
                k <= self.base@.len(),
                self.base@.len() == start.len(),
                self.img == old(self).img,
                self.populations == old(self).populations,
                self.cache == old(self).cache,
                self.config == old(self).config,
                tried == stepped(start, hits@, deltas@),
                forall|j: int| 0 <= j < k ==> (#[trigger] self.base@[j])@ == tried[j],
                forall|j: int| k <= j < start.len() ==> (#[trigger] self.base@[j])@ == start[j],
            decreases self.base.len() - k,
        {
            let hit = k < hits.len() && hits[k];
            let delta = if k < deltas.len() {
                deltas[k]
            } else {
                Point(0, 0)
            };
            self.base[k].mutate_with(hit, delta);
            k = k + 1;
        }
        proof {
            assert(self.members() =~= tried);
        }
        self.close_round();
        Ok(())
    }

    /// Closes the rounds: every vertex merges what it tried to the good into
    /// a new position, and the mesh over the new positions is made.
    ///
    /// Where two vertices would come to stand at one point the rounds are
    /// not closed, and nothing is changed.
    pub fn aggregate_beneficial_mutations(&mut self) -> (result: Result<(), MeshError>)
        requires
            old(self).wf(),
        ensures
            final(self).wf(),
            final(self).picture() == old(self).picture(),
            final(self).settings() == old(self).settings(),
            final(self).members().len() == old(self).members().len(),
            old(self).faithful() ==> final(self).faithful(),
            match after_merge(old(self).course(), old(self).picture(), old(self).settings()) {
                Some(next) => result is Ok && final(self).course() == next,
                None => result == Err::<(), MeshError>(MeshError::DuplicatePoint)
                    && final(self).course() == old(self).course(),
            },
    {
        let round = self.populations.len();
        let ghost start = self.members();
        let ghost dimensions = bounds_of(self.picture().size());
        let ghost merged = all_merged(start);
        let ghost points = round_points(merged, round as int);
        proof {
            assert forall|i: int| 0 <= i < start.len() implies fits(
                #[trigger] merged[i],
                i,
                round as int,
                dimensions,
            ) && merged[i].point_at(round as int) == start[i].merged_point() by {
                assert(fits(start[i], i, round - 1, dimensions));
                lemma_merged_fits(start[i], i, round - 1, dimensions);
            }
        }
        let mut tentative: Vec<(i32, i32)> = Vec::new();
        let mut i: usize = 0;
        while i < self.base.len()
            invariant
                i <= self.base@.len(),
                *self == *old(self),
                start == views(self.base@),
                merged == all_merged(start),
                points == round_points(merged, round as int),
                forall|j: int|
                    0 <= j < start.len() ==> (#[trigger] merged[j]).point_at(round as int)
                        == start[j].merged_point(),
                tentative@ == points.take(i as int),
            decreases self.base.len() - i,
        {
            proof {
                assert(start[i as int] == self.base@[i as int]@);
                assert(merged[i as int].point_at(round as int) == start[i as int].merged_point());
            }
            let at = self.base[i].merged_point();
            tentative.push(at.values());
            assert(tentative@ =~= points.take(i + 1));
            i = i + 1;
        }
        assert(tentative@ =~= points);
        if !check_distinct(&tentative) {
            return Err(MeshError::DuplicatePoint);
        }
        let mut k: usize = 0;
        while k < self.base.len()
            invariant
                k <= self.base@.len(),
                self.base@.len() == start.len(),
                self.img == old(self).img,
                self.populations == old(self).populations,
                self.cache == old(self).cache,
                self.config == old(self).config,
                merged == all_merged(start),
                forall|j: int| 0 <= j < k ==> (#[trigger] self.base@[j])@ == merged[j],
                forall|j: int| k <= j < start.len() ==> (#[trigger] self.base@[j])@ == start[j],
            decreases self.base.len() - k,
        {
            self.base[k].merge_mutations_into_base();
            k = k + 1;
        }
        proof {
            assert(self.members() =~= merged);
        }
        self.close_round();
        Ok(())
    }

    /// Runs `n` rounds and closes them. In each round every vertex tries
    /// its step with the odds of the configuration; `deltas[r][i]` is the
    /// step of vertex `i` in round `r`, and a vertex without an entry
    /// gets the step of no length.
    ///
    /// The run ends at the first round in which two vertices would come to
    /// stand at one point; the rounds before it stay.
    pub fn mutate(&mut self, n: u32, deltas: &Vec<Vec<Point>>) -> (result: Result<(), MeshError>)
        requires
            old(self).wf(),
        ensures
            final(self).wf(),
            final(self).picture() == old(self).picture(),
            final(self).settings() == old(self).settings(),
            final(self).members().len() == old(self).members().len(),
            old(self).faithful() ==> final(self).faithful(),
            result is Err ==> result == Err::<(), MeshError>(MeshError::DuplicatePoint),
            exists|hits: Seq<Seq<bool>>|
                {
                    &&& hits.len() == n
                    &&& forall|r: int|
                        0 <= r < hits.len() ==> (#[trigger] hits[r]).len()
                            == old(self).members().len()
                    &&& obeys_odds(hits, old(self).settings().mutation_odds)
                    &&& #[trigger] after_mutation(
                        old(self).course(),
                        hits,
                        deltas@,
                        n as nat,
                        old(self).picture(),
                        old(self).settings(),
                    ) == (final(self).course(), result is Ok)
                },
    {
        let none: Vec<Point> = Vec::new();
        let ghost start = self.course();
        let ghost mut drawn: Seq<Seq<bool>> = Seq::empty();
        let mut r: u32 = 0;
        while r < n
            invariant
                r <= n,
                self.wf(),
                self.picture() == old(self).picture(),
                self.settings() == old(self).settings(),
                self.members().len() == old(self).members().len(),
                old(self).faithful() ==> self.faithful(),
                start == old(self).course(),
                none@.len() == 0,
                drawn.len() == r,
                forall|k: int|
                    0 <= k < drawn.len() ==> (#[trigger] drawn[k]).len() == old(self).members().len(),
                obeys_odds(drawn, self.settings().mutation_odds),
                after_rounds(start, drawn, deltas@, r as nat, self.picture(), self.settings()) == (
                    self.course(),
                    true,
                ),
            decreases n - r,
        {
            let mut hits: Vec<bool> = Vec::new();
            let mut i: usize = 0;
            while i < self.base.len()
                invariant
                    self.config.wf(),
                    i <= self.base@.len(),
                    hits@.len() == i,
                    forall|j: int|
                        0 <= j < i ==> (self.config.mutation_odds.0 == self.config.mutation_odds.1
                            ==> #[trigger] hits@[j]) && (self.config.mutation_odds.0 == 0
                            ==> !hits@[j]),
                decreases self.base.len() - i,
            {
                hits.push(should_mutate(self.config.mutation_odds.0, self.config.mutation_odds.1));
                i = i + 1;
            }
            let steps = if (r as usize) < deltas.len() {
                &deltas[r as usize]
            } else {
                &none
            };
            let ghost before = self.course();
            let ghost sooner = drawn;
            proof {
                drawn = sooner.push(hits@);
                assert forall|k: int| 0 <= k < r implies hits_of(sooner, k) == hits_of(drawn, k) by {}
                lemma_after_rounds_prefix(
                    start,
                    sooner,
                    drawn,
                    deltas@,
                    r as nat,
                    self.picture(),
                    self.settings(),
                );
                assert(hits_of(drawn, r as int) == hits@);
                assert(steps_of(deltas@, r as int) =~= steps@);
                assert forall|a: int, b: int| 0 <= a < drawn.len() && 0 <= b < drawn[a].len() implies (
                self.settings().mutation_odds.0 == self.settings().mutation_odds.1 ==> (
                #[trigger] drawn[a][b])) && (self.settings().mutation_odds.0 == 0 ==> !drawn[a][b]) by {
                    if a < r {
                        assert(drawn[a] == sooner[a]);
                        assert(sooner[a][b] == drawn[a][b]);
                    } else {
                        assert(drawn[a][b] == hits@[b]);
                    }
                }
            }
            match self.advance(&hits, steps) {
                Ok(()) => {},
                Err(e) => {
                    proof {
                        let img = self.picture();
                        let config = self.settings();
                        assert(after_rounds(start, drawn, deltas@, (r + 1) as nat, img, config) == (
                            before,
                            false,
                        ));
                        // The rounds that are not run any more get hits that the
                        // odds allow: all of them, or none.
                        let odds = config.mutation_odds;
                        let rest = Seq::new(old(self).members().len(), |i: int| odds.0 == odds.1);
                        let all = Seq::new(
                            n as nat,
                            |k: int|
                                if k < drawn.len() {
                                    drawn[k]
                                } else {
                                    rest
                                },
                        );
                        assert forall|k: int| 0 <= k < r + 1 implies hits_of(drawn, k) == hits_of(
                            all,
                            k,
                        ) by {}
                        lemma_after_rounds_prefix(
                            start,
                            drawn,
                            all,
                            deltas@,
                            (r + 1) as nat,
                            img,
                            config,
                        );
                        lemma_after_rounds_stuck(
                            start,
                            all,
                            deltas@,
                            (r + 1) as nat,
                            n as nat,
                            img,
                            config,
                        );
                        assert forall|a: int, b: int| 0 <= a < all.len() && 0 <= b < all[a].len() implies (
                        odds.0 == odds.1 ==> (#[trigger] all[a][b])) && (odds.0 == 0 ==> !all[a][b]) by {
                            if a < drawn.len() {
                                assert(all[a] == drawn[a]);
                                assert(drawn[a][b] == all[a][b]);
                            } else {
                                assert(all[a][b] == (odds.0 == odds.1));
                            }
                        }
                        assert forall|k: int| 0 <= k < all.len() implies (#[trigger] all[k]).len()
                            == old(self).members().len() by {
                            if k < drawn.len() {
                                assert(all[k] == drawn[k]);
                            }
                        }
                        assert(after_mutation(start, all, deltas@, n as nat, img, config) == (
                            self.course(),
                            false,
                        ));
                    }
                    return Err(e);
                },
            }
            r = r + 1;
        }
        let result = self.aggregate_beneficial_mutations();
        proof {
            assert(after_mutation(
                start,
                drawn,
                deltas@,
                n as nat,
                self.picture(),
                self.settings(),
            ) == (self.course(), result is Ok));
        }
        result
    }

    /// The points for the next generation: as many as the picture asks
    /// for, one for each vertex, taken from the fittest faces of all the
    /// meshes. Each point is where the vertex stood in the mesh of the face.
    pub fn get_best_points(&self) -> (points: Vec<(i32, i32)>)
        ensures
            points@ == best_points(gathered(self.history()), self.picture().target() as int),
            points@.len() <= self.picture().target(),
    {
        let faces = gather(&self.populations);
        choose_points(&faces, self.img.points())
    }

    /// The mesh over the best points, with fresh vertices at them: every
    /// corner of every face is one of the points, and every face has three
    /// corners and three vertices.
    ///
    /// There is no mesh where one of the points occurs twice, which is where
    /// two vertices stood at one point in different rounds; then nothing is
    /// changed. Otherwise the cache keeps what was worked out for the faces.
    pub fn get_best_population(&mut self) -> (result: Result<Population, MeshError>)
        requires
            old(self).wf(),
        ensures
            final(self).wf(),
            final(self).picture() == old(self).picture(),
            final(self).settings() == old(self).settings(),
            final(self).members() == old(self).members(),
            final(self).history() == old(self).history(),
            old(self).faithful() ==> final(self).faithful() && (result matches Ok(population)
                ==> mesh_is_true(population@, old(self).picture(), old(self).settings())),
            ({
                let points = best_points(
                    gathered(old(self).history()),
                    old(self).picture().target() as int,
                );
                match result {
                    Ok(population) => {
                        let scene = triangulated(
                            seeded(points, bounds_of(old(self).picture().size())),
                            old(self).kept(),
                            0,
                            old(self).picture(),
                            old(self).settings(),
                        );
                        &&& distinct(points)
                        &&& triangles_keep_to(points)
                        &&& population@ == (PopulationView { faces: scene.faces, points })
                        &&& well_meshed(population@)
                        &&& final(self).kept() == scene.kept
                    },
                    Err(e) => {
                        &&& !distinct(points)
                        &&& e == MeshError::DuplicatePoint
                        &&& final(self).kept() == old(self).kept()
                    },
                }
            }),
    {
        let points = self.get_best_points();
        let (width, height) = self.img.dimensions();
        let dimensions = (width as i32, height as i32);
        let mut members = seed(&points, dimensions);
        proof {
            let fresh = seeded(points@, dimensions);
            assert(round_points(fresh, 0) =~= points@);
            assert(ready(fresh, 0));
            let faces = gathered(self.history());
            lemma_gathered_within_limit(self.history());
            lemma_best_points_are_corners(faces, self.picture().target() as int);
            assert forall|j: int| 0 <= j < points@.len() implies within_limit(#[trigger] points@[j]) by {
                assert(corner_in(faces, points@[j]));
                let i = choose|i: int| 0 <= i < faces.len() && corner_of(#[trigger] faces[i], points@[j]);
                assert(face_within_limit(faces[i]));
            }
            if self.faithful() {
                lemma_triangulated_is_true(fresh, self.kept(), 0, self.img, self.config);
            }
        }
        triangulate(&mut members, 0, self.img, &mut self.cache, &self.config)
    }

    /// Paints the mesh: the bytes of a picture as large as the one that
    /// the mesh was fitted to, row by row, three for each pixel.
    ///
    /// Each pixel gets the colour of the face that covers it. The search
    /// for the face starts from the face of the pixel before. A pixel that
    /// no face covers gets the colour of the next pixel towards the first
    /// pixel, and `MISSING` if there is none.
    pub fn write(&self, population: &Population) -> (buffer: Vec<u8>)
        requires
            self.wf(),
        ensures
            buffer@ == raster(
                population.faces@,
                self.picture().size().0 as int,
                self.picture().size().0 * self.picture().size().1,
            ).0,
    {
        let (width, height) = self.img.dimensions();
        let mut buffer: Vec<u8> = Vec::new();
        assert(width * height <= 0x2000_0000 * 0x2000_0000) by (nonlinear_arith)
            requires
                0 <= width <= 0x2000_0000,
                0 <= height <= 0x2000_0000,
        ;
        let count: u64 = width as u64 * height as u64;
        let mut finder = FaceFinder::new(&population.faces);
        let ghost faces = population.faces@;
        let mut i: u64 = 0;
        while i < count
            invariant
                i <= count,
                count == width * height,
                0 <= width <= 0x2000_0000,
                0 <= height <= 0x2000_0000,
                faces == population.faces@,
                finder.faces() == faces,
                buffer@ == raster(faces, width as int, i as int).0,
                finder.position() == raster(faces, width as int, i as int).1,
            decreases count - i,
        {
            assert(width > 0) by (nonlinear_arith)
                requires
                    i < width * height,
                    0 <= width,
                    0 <= i,
            ;
            assert(i / (width as u64) < height) by (nonlinear_arith)
                requires
                    i < width * height,
                    0 < width,
                    0 <= i,
                    0 <= height,
            ;
            let x = (i % width as u64) as i32;
            let y = (i / width as u64) as i32;
            let ghost start = finder.position();
            let mut cx = x;
            let mut cy = y;
            let mut color = MISSING;
            loop
                invariant_except_break
                    finder.position() == start,
                    shade(faces, start, cx as int, cy as int) == shade(
                        faces,
                        start,
                        x as int,
                        y as int,
                    ),
                invariant
                    0 <= cx,
                    0 <= cy,
                    finder.faces() == faces,
                    faces == population.faces@,
                ensures
                    (color, finder.position()) == shade(faces, start, x as int, y as int),
                    finder.faces() == faces,
                decreases cx + cy,
            {
                match finder.find(cx, cy) {
                    Some(f) => {
                        color = population.faces[f].color;
                        break ;
                    },
                    None => {
                        if cx == 0 && cy == 0 {
                            color = MISSING;
                            break ;
                        } else if cx == 0 {
                            cy = cy - 1;
                        } else if cy == 0 {
                            cx = cx - 1;
                        } else {
                            cx = cx - 1;
                            cy = cy - 1;
                        }
                    },
                }
            }
            buffer.push(color.0);
            buffer.push(color.1);
            buffer.push(color.2);
            i = i + 1;
        }
        buffer
    }
}

} // verus!
