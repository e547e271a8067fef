use vstd::prelude::*;
use std::collections::HashSet;
use crate::cache::{canonical, lemma_canonical_is_sorted, Cache};
use crate::config::Config;
use crate::face::{group_for, lemma_owner_of, owner_of, paid, views, Face, FaceView};
use crate::img::Img;
use crate::member::{Member, MemberView};
use crate::pixel_group::Group;
use crate::point::{pack, packed, Point};
use crate::triangle::{
    lemma_lattice_ignores_order, lemma_order_by_height, order_by_height, same_corners,
};

verus! {

broadcast use vstd::std_specs::hash::group_hash_axioms;

/// The largest size of a coordinate that the triangulation is given.
pub const COORD_LIMIT: i32 = 0x2000_0000;

/// What can stand in the way of a mesh.
#[derive(Clone, Copy, Debug, PartialEq, Eq, Structural)]
pub enum MeshError {
    /// A side of the picture is longer than `COORD_LIMIT`.
    PictureTooLarge,
    /// A coordinate of a point is larger than `COORD_LIMIT` or smaller than
    /// its negative.
    PointOutOfRange,
    /// Two vertices stand at one point.
    DuplicatePoint,
}

/// Both coordinates of the point are within `COORD_LIMIT` of zero.
pub open spec fn within_limit(p: (i32, i32)) -> bool {
    -COORD_LIMIT <= p.0 <= COORD_LIMIT && -COORD_LIMIT <= p.1 <= COORD_LIMIT
}

/// Every point is within `COORD_LIMIT` of zero on both axes.
pub open spec fn all_within_limit(points: Seq<(i32, i32)>) -> bool {
    forall|i: int| 0 <= i < points.len() ==> within_limit(#[trigger] points[i])
}

/// No point occurs twice.
pub open spec fn distinct(points: Seq<(i32, i32)>) -> bool {
    forall|i: int, j: int| 0 <= i < j < points.len() ==> #[trigger] points[i] != #[trigger] points[j]
}

/// A Delaunay triangulation over points with whole coordinates: spade's
/// `DelaunayTriangulation`, with exact arithmetic and a walk from the last
/// vertex to find the place of the next.
#[verifier::external_body]
pub struct Triangulation {
    inner: spade::delaunay::DelaunayTriangulation<
        [i64; 2],
        spade::kernels::AdaptiveIntKernel,
        spade::delaunay::DelaunayWalkLocate,
    >,
}

/// The points that were put into the triangulation, in their order.
pub uninterp spec fn inserted(triangulation: Triangulation) -> Seq<(i32, i32)>;

/// The triangles that spade makes of the points when they are put in in this
/// order, each with its three corners.
pub uninterp spec fn delaunay_triangles(points: Seq<(i32, i32)>) -> Seq<
    ((i32, i32), (i32, i32), (i32, i32)),
>;

/// `DelaunayTriangulation::new`: a triangulation without points.
#[verifier::external_body]
fn triangulation_new() -> (triangulation: Triangulation)
    ensures
        inserted(triangulation) == Seq::<(i32, i32)>::empty(),
{
    Triangulation { inner: spade::delaunay::DelaunayTriangulation::new() }
}

/// `DelaunayTriangulation::insert`: puts one more point in. The point is
/// not in the triangulation yet: a point that is would take the place of
/// its vertex and add none. The coordinates stay within `COORD_LIMIT`, so
/// that the sums of products of two differences, which spade forms in 64
/// bits, do not overflow.
#[verifier::external_body]
fn triangulation_insert(triangulation: &mut Triangulation, point: (i32, i32))
    requires
        all_within_limit(inserted(*old(triangulation))),
        within_limit(point),
        !inserted(*old(triangulation)).contains(point),
    ensures
        inserted(*final(triangulation)) == inserted(*old(triangulation)).push(point),
{
    triangulation.inner.insert([point.0 as i64, point.1 as i64]);
}

/// `DelaunayTriangulation::triangles`, each face read with `as_triangle`:
/// the triangles over the points that were put in. Every corner of a
/// triangle is one of those points, and the three corners of a triangle
/// are three vertices of the triangulation, no two of which stand at one
/// point.
#[verifier::external_body]
fn triangulation_triangles(triangulation: &Triangulation) -> (triangles: Vec<
    ((i32, i32), (i32, i32), (i32, i32)),
>)
    ensures
        triangles@ == delaunay_triangles(inserted(*triangulation)),
        forall|t: int|
            0 <= t < triangles@.len() ==> inserted(*triangulation).contains(
                (#[trigger] triangles@[t]).0,
            ) && inserted(*triangulation).contains(triangles@[t].1) && inserted(
                *triangulation,
            ).contains(triangles@[t].2),
        forall|t: int|
            0 <= t < triangles@.len() ==> (#[trigger] triangles@[t]).0 != triangles@[t].1
                && triangles@[t].0 != triangles@[t].2 && triangles@[t].1 != triangles@[t].2,
{
    triangulation.inner.triangles().map(
        |face| {
            let t = face.as_triangle();
            (
                (t[0][0] as i32, t[0][1] as i32),
                (t[1][0] as i32, t[1][1] as i32),
                (t[2][0] as i32, t[2][1] as i32),
            )
        },
    ).collect()
}

/// The triangles over `points`, no two of which are the same.
pub fn delaunay(points: &Vec<(i32, i32)>) -> (triangles: Vec<((i32, i32), (i32, i32), (i32, i32))>)
    requires
        all_within_limit(points@),
        distinct(points@),
    ensures
        triangles@ == delaunay_triangles(points@),
        forall|t: int|
            0 <= t < triangles@.len() ==> points@.contains((#[trigger] triangles@[t]).0)
                && points@.contains(triangles@[t].1) && points@.contains(triangles@[t].2),
        forall|t: int|
            0 <= t < triangles@.len() ==> (#[trigger] triangles@[t]).0 != triangles@[t].1
                && triangles@[t].0 != triangles@[t].2 && triangles@[t].1 != triangles@[t].2,
{
    let mut triangulation = triangulation_new();
    let mut i: usize = 0;
    assert(points@.take(0) =~= Seq::<(i32, i32)>::empty());
    while i < points.len()
        invariant
            i <= points@.len(),
            all_within_limit(points@),
            distinct(points@),
            inserted(triangulation) == points@.take(i as int),
        decreases points.len() - i,
    {
        proof {
            let sooner = points@.take(i as int);
            if sooner.contains(points@[i as int]) {
                let j = choose|j: int| 0 <= j < sooner.len() && sooner[j] == points@[i as int];
                assert(points@[j] != points@[i as int]);
            }
        }
        triangulation_insert(&mut triangulation, points[i]);
        assert(points@.take(i + 1) =~= points@.take(i as int).push(points@[i as int]));
        i = i + 1;
    }
    assert(points@.take(points@.len() as int) =~= points@);
    triangulation_triangles(&triangulation)
}

/// Whether every point is within `COORD_LIMIT` of zero on both axes.
pub fn check_within_limit(points: &Vec<(i32, i32)>) -> (ok: bool)
    ensures
        ok == all_within_limit(points@),
{
    let mut i: usize = 0;
    while i < points.len()
        invariant
            i <= points@.len(),
            forall|j: int| 0 <= j < i ==> within_limit(#[trigger] points@[j]),
        decreases points.len() - i,
    {
        let p = points[i];
        if p.0 < -COORD_LIMIT || p.0 > COORD_LIMIT || p.1 < -COORD_LIMIT || p.1 > COORD_LIMIT {
            return false;
        }
        i = i + 1;
    }
    true
}

/// Whether no point occurs twice.
pub fn check_distinct(points: &Vec<(i32, i32)>) -> (ok: bool)
    ensures
        ok == distinct(points@),
{
    let mut seen: HashSet<u64> = HashSet::new();
    let mut i: usize = 0;
    while i < points.len()
        invariant
            i <= points@.len(),
            distinct(points@.take(i as int)),
            forall|j: int|
                0 <= j < i ==> seen@.contains(
                    packed(Point((#[trigger] points@[j]).0, points@[j].1)) as u64,
                ),
            forall|k: u64|
                seen@.contains(k) ==> exists|j: int|
                    0 <= j < i && k == packed(Point((#[trigger] points@[j]).0, points@[j].1)),
        decreases points.len() - i,
    {
        let p = points[i];
        let key = pack(Point(p.0, p.1));
        let ghost old_seen = seen@;
        let fresh = seen.insert(key);
        if !fresh {
            proof {
                let j = choose|j: int|
                    0 <= j < i && key == packed(Point((#[trigger] points@[j]).0, points@[j].1));
                assert(points@[j] == points@[i as int]);
            }
            return false;
        }
        proof {
            let sooner = points@.take(i as int);
            let next = points@.take(i + 1);
            assert forall|a: int, b: int| 0 <= a < b < next.len() implies #[trigger] next[a]
                != #[trigger] next[b] by {
                if b == i {
                    if points@[a] == points@[b] {
                        assert(old_seen.contains(packed(Point(points@[a].0, points@[a].1)) as u64));
                    }
                } else {
                    assert(sooner[a] != sooner[b]);
                }
            }
            assert forall|k: u64| seen@.contains(k) implies exists|j: int|
                0 <= j < i + 1 && k == packed(Point((#[trigger] points@[j]).0, points@[j].1)) by {
                if k == key {
                    assert(k == packed(Point(points@[i as int].0, points@[i as int].1)));
                } else {
                    let j = choose|j: int|
                        0 <= j < i && k == packed(Point((#[trigger] points@[j]).0, points@[j].1));
                    assert(0 <= j < i + 1);
                }
            }
        }
        i = i + 1;
    }
    assert(points@.take(points@.len() as int) =~= points@);
    true
}

/// A mesh as it is built: the faces so far, the vertices with the fitness
/// that the faces brought in, and what the cache holds.
pub struct Scene {
    pub faces: Seq<FaceView>,
    pub members: Seq<MemberView>,
    pub kept: Map<(Point, Point, Point), Group>,
}

/// The scene with one more face, built over `corners` in the round.
///
/// Each corner is given to the first vertex that stands at it. The colour
/// and the fitness come from the cache where it holds them for the triangle
/// and else from the picture; the cache keeps them. The fitness comes in for
/// each of the three vertices.
pub open spec fn with_face(
    scene: Scene,
    corners: (Point, Point, Point),
    round: int,
    img: &Img,
    config: Config,
) -> Scene {
    let v = order_by_height(corners.0, corners.1, corners.2);
    let key = canonical(v.0, v.1, v.2);
    let group = if scene.kept.contains_key(key) {
        scene.kept[key]
    } else {
        group_for(img, config, v)
    };
    let first = owner_of(scene.members, round, v.0, 0);
    let second = owner_of(scene.members, round, v.1, 0);
    let third = owner_of(scene.members, round, v.2, 0);
    Scene {
        faces: scene.faces.push(
            FaceView {
                points: (first as usize, second as usize, third as usize),
                color: group.color,
                fitness: group.fitness,
                corners: v,
            },
        ),
        members: paid(
            paid(paid(scene.members, first, round, group.fitness), second, round, group.fitness),
            third,
            round,
            group.fitness,
        ),
        kept: scene.kept.insert(key, group),
    }
}

/// The scene after a face was built over each of the triangles, in their
/// order.
pub open spec fn built(
    triangles: Seq<(Point, Point, Point)>,
    start: Scene,
    round: int,
    img: &Img,
    config: Config,
) -> Scene
    decreases triangles.len(),
{
    if triangles.len() == 0 {
        start
    } else {
        with_face(
            built(triangles.drop_last(), start, round, img, config),
            triangles.last(),
            round,
            img,
            config,
        )
    }
}

/// Where the vertices stand in the round.
pub open spec fn round_points(members: Seq<MemberView>, round: int) -> Seq<(i32, i32)> {
    Seq::new(members.len(), |i: int| (members[i].point_at(round).0, members[i].point_at(round).1))
}

/// The faces in terms of plain values.
pub open spec fn face_views(faces: Seq<Face>) -> Seq<FaceView> {
    Seq::new(faces.len(), |i: int| faces[i]@)
}

/// The triangles with their corners as points.
pub open spec fn as_corners(triangles: Seq<((i32, i32), (i32, i32), (i32, i32))>) -> Seq<
    (Point, Point, Point),
> {
    Seq::new(
        triangles.len(),
        |i: int|
            (
                Point(triangles[i].0.0, triangles[i].0.1),
                Point(triangles[i].1.0, triangles[i].1.1),
                Point(triangles[i].2.0, triangles[i].2.1),
            ),
    )
}

/// Every corner of every triangle is a point at which a vertex stands.
pub open spec fn corners_are_owned(
    triangles: Seq<(Point, Point, Point)>,
    points: Seq<(i32, i32)>,
) -> bool {
    forall|t: int|
        0 <= t < triangles.len() ==> points.contains(
            ((#[trigger] triangles[t]).0.0, triangles[t].0.1),
        ) && points.contains((triangles[t].1.0, triangles[t].1.1)) && points.contains(
            (triangles[t].2.0, triangles[t].2.1),
        )
}

/// Every vertex has got as far as the round.
pub open spec fn ready(members: Seq<MemberView>, round: int) -> bool {
    forall|j: int| 0 <= j < members.len() ==> round <= (#[trigger] members[j]).rounds.len()
}

/// The same vertex at the same places, round for round, whatever fitness
/// came in.
pub open spec fn same_place(a: MemberView, b: MemberView) -> bool {
    &&& a.id == b.id
    &&& a.source == b.source
    &&& a.dimensions == b.dimensions
    &&& a.point == b.point
    &&& a.rounds.len() == b.rounds.len()
    &&& forall|r: int| a.point_at(r) == #[trigger] b.point_at(r)
}

/// The same vertices at the same places.
pub open spec fn same_places(a: Seq<MemberView>, b: Seq<MemberView>) -> bool {
    &&& a.len() == b.len()
    &&& forall|j: int| 0 <= j < a.len() ==> same_place(#[trigger] a[j], b[j])
}

/// Fitness that comes in leaves a vertex where it stands.
pub proof fn lemma_credited_keeps_place(member: MemberView, round: int, fitness: u64)
    requires
        0 <= round <= member.rounds.len(),
    ensures
        same_place(member.credited(round, fitness), member),
{
    let after = member.credited(round, fitness);
    assert forall|r: int| after.point_at(r) == #[trigger] member.point_at(r) by {
        if 0 < r <= member.rounds.len() {
            if r == round {
            } else {
                assert(after.rounds[r - 1] == member.rounds[r - 1]);
            }
        }
    }
}

/// Fitness that comes in does not move a vertex.
pub proof fn lemma_paid_keeps_points(members: Seq<MemberView>, i: int, round: int, fitness: u64)
    requires
        0 <= i < members.len(),
        0 <= round,
        ready(members, round),
    ensures
        round_points(paid(members, i, round, fitness), round) == round_points(members, round),
        same_places(paid(members, i, round, fitness), members),
        ready(paid(members, i, round, fitness), round),
{
    let after = paid(members, i, round, fitness);
    assert(after[i] == members[i].credited(round, fitness));
    assert(round <= members[i].rounds.len());
    lemma_credited_keeps_place(members[i], round, fitness);
    assert forall|j: int| 0 <= j < members.len() implies same_place(#[trigger] after[j], members[j]) by {
        if j != i {
            assert(after[j] == members[j]);
        }
    }
    assert forall|j: int| 0 <= j < after.len() implies round <= (#[trigger] after[j]).rounds.len() by {
        assert(same_place(after[j], members[j]));
    }
    assert forall|j: int| 0 <= j < members.len() implies (#[trigger] after[j]).point_at(round)
        == members[j].point_at(round) by {
        assert(same_place(after[j], members[j]));
    }
    assert(round_points(after, round) =~= round_points(members, round));
}

/// Standing at the same places carries over.
pub proof fn lemma_same_places_chain(a: Seq<MemberView>, b: Seq<MemberView>, c: Seq<MemberView>)
    requires
        same_places(a, b),
        same_places(b, c),
    ensures
        same_places(a, c),
{
    assert forall|j: int| 0 <= j < a.len() implies same_place(#[trigger] a[j], c[j]) by {
        assert(same_place(a[j], b[j]));
        assert(same_place(b[j], c[j]));
        assert forall|r: int| a[j].point_at(r) == #[trigger] c[j].point_at(r) by {
            assert(a[j].point_at(r) == b[j].point_at(r));
            assert(b[j].point_at(r) == c[j].point_at(r));
        }
    }
}

/// A point at which a vertex stands has an owner.
pub proof fn lemma_owner_exists(members: Seq<MemberView>, round: int, v: Point)
    requires
        round_points(members, round).contains((v.0, v.1)),
    ensures
        0 <= owner_of(members, round, v, 0) < members.len(),
{
    lemma_owner_of(members, round, v, 0);
    let points = round_points(members, round);
    let j = choose|j: int| 0 <= j < points.len() && points[j] == (v.0, v.1);
    assert(members[j].point_at(round) == v);
}

/// A face that is built keeps every vertex where it stands.
pub proof fn lemma_with_face(
    scene: Scene,
    corners: (Point, Point, Point),
    round: int,
    img: &Img,
    config: Config,
)
    requires
        0 <= round,
        ready(scene.members, round),
        round_points(scene.members, round).contains((corners.0.0, corners.0.1)),
        round_points(scene.members, round).contains((corners.1.0, corners.1.1)),
        round_points(scene.members, round).contains((corners.2.0, corners.2.1)),
    ensures
        ({
            let v = order_by_height(corners.0, corners.1, corners.2);
            &&& 0 <= owner_of(scene.members, round, v.0, 0) < scene.members.len()
            &&& 0 <= owner_of(scene.members, round, v.1, 0) < scene.members.len()
            &&& 0 <= owner_of(scene.members, round, v.2, 0) < scene.members.len()
        }),
        round_points(with_face(scene, corners, round, img, config).members, round) == round_points(
            scene.members,
            round,
        ),
        same_places(with_face(scene, corners, round, img, config).members, scene.members),
        ready(with_face(scene, corners, round, img, config).members, round),
        with_face(scene, corners, round, img, config).faces.len() == scene.faces.len() + 1,
{
    let v = order_by_height(corners.0, corners.1, corners.2);
    lemma_order_by_height(corners.0, corners.1, corners.2);
    lemma_owner_exists(scene.members, round, v.0);
    lemma_owner_exists(scene.members, round, v.1);
    lemma_owner_exists(scene.members, round, v.2);
    let key = canonical(v.0, v.1, v.2);
    let group = if scene.kept.contains_key(key) {
        scene.kept[key]
    } else {
        group_for(img, config, v)
    };
    let first = owner_of(scene.members, round, v.0, 0);
    let second = owner_of(scene.members, round, v.1, 0);
    let third = owner_of(scene.members, round, v.2, 0);
    let one = paid(scene.members, first, round, group.fitness);
    lemma_paid_keeps_points(scene.members, first, round, group.fitness);
    let two = paid(one, second, round, group.fitness);
    lemma_paid_keeps_points(one, second, round, group.fitness);
    let three = paid(two, third, round, group.fitness);
    lemma_paid_keeps_points(two, third, round, group.fitness);
    lemma_same_places_chain(two, one, scene.members);
    lemma_same_places_chain(three, two, scene.members);
}

/// Building faces keeps every vertex where it stands.
pub proof fn lemma_built(
    triangles: Seq<(Point, Point, Point)>,
    start: Scene,
    round: int,
    img: &Img,
    config: Config,
)
    requires
        0 <= round,
        ready(start.members, round),
        corners_are_owned(triangles, round_points(start.members, round)),
    ensures
        round_points(built(triangles, start, round, img, config).members, round) == round_points(
            start.members,
            round,
        ),
        same_places(built(triangles, start, round, img, config).members, start.members),
        ready(built(triangles, start, round, img, config).members, round),
        built(triangles, start, round, img, config).faces.len() == start.faces.len()
            + triangles.len(),
    decreases triangles.len(),
{
    if triangles.len() > 0 {
        let sooner = triangles.drop_last();
        assert forall|t: int| 0 <= t < sooner.len() implies round_points(
            start.members,
            round,
        ).contains(((#[trigger] sooner[t]).0.0, sooner[t].0.1)) && round_points(
            start.members,
            round,
        ).contains((sooner[t].1.0, sooner[t].1.1)) && round_points(start.members, round).contains(
            (sooner[t].2.0, sooner[t].2.1),
        ) by {
            assert(sooner[t] == triangles[t]);
        }
        lemma_built(sooner, start, round, img, config);
        let scene = built(sooner, start, round, img, config);
        let last = triangles[triangles.len() - 1];
        assert(round_points(start.members, round).contains((last.0.0, last.0.1)));
        lemma_with_face(scene, triangles.last(), round, img, config);
        lemma_same_places_chain(
            with_face(scene, triangles.last(), round, img, config).members,
            scene.members,
            start.members,
        );
    } else {
        assert forall|j: int| 0 <= j < start.members.len() implies same_place(
            #[trigger] start.members[j],
            start.members[j],
        ) by {}
    }
}

/// Builds a face over each of the triangles, in their order.
pub fn build_faces(
    triangles: &Vec<(Point, Point, Point)>,
    members: &mut Vec<Member>,
    round: usize,
    img: &Img,
    cache: &mut Cache,
    config: &Config,
) -> (faces: Vec<Face>)
    requires
        config.wf(),
        ready(views(old(members)@), round as int),
        corners_are_owned(triangles@, round_points(views(old(members)@), round as int)),
    ensures
        ({
            let out = built(
                triangles@,
                Scene { faces: Seq::empty(), members: views(old(members)@), kept: old(cache)@ },
                round as int,
                img,
                *config,
            );
            &&& face_views(faces@) == out.faces
            &&& views(final(members)@) == out.members
            &&& final(cache)@ == out.kept
        }),
{
    let ghost start = Scene { faces: Seq::empty(), members: views(members@), kept: cache@ };
    let mut faces: Vec<Face> = Vec::new();
    let mut k: usize = 0;
    proof {
        assert(triangles@.take(0) =~= Seq::<(Point, Point, Point)>::empty());
        assert(face_views(faces@) =~= start.faces);
    }
    while k < triangles.len()
        invariant
            k <= triangles@.len(),
            config.wf(),
            ready(start.members, round as int),
            corners_are_owned(triangles@, round_points(start.members, round as int)),
            built(triangles@.take(k as int), start, round as int, img, *config) == (Scene {
                faces: face_views(faces@),
                members: views(members@),
                kept: cache@,
            }),
        decreases triangles.len() - k,
    {
        let corners = triangles[k];
        let ghost sooner = triangles@.take(k as int);
        let ghost scene = built(sooner, start, round as int, img, *config);
        let ghost next = with_face(scene, corners, round as int, img, *config);
        proof {
            assert forall|t: int| 0 <= t < sooner.len() implies round_points(
                start.members,
                round as int,
            ).contains(((#[trigger] sooner[t]).0.0, sooner[t].0.1)) && round_points(
                start.members,
                round as int,
            ).contains((sooner[t].1.0, sooner[t].1.1)) && round_points(
                start.members,
                round as int,
            ).contains((sooner[t].2.0, sooner[t].2.1)) by {
                assert(sooner[t] == triangles@[t]);
            }
            lemma_built(sooner, start, round as int, img, *config);
            let owned = triangles@[k as int];
            assert(round_points(start.members, round as int).contains((owned.0.0, owned.0.1)));
            lemma_with_face(scene, corners, round as int, img, *config);
            assert(triangles@.take(k + 1).drop_last() =~= sooner);
            assert(triangles@.take(k + 1).last() == corners);
            assert(built(triangles@.take(k + 1), start, round as int, img, *config) == next);
            assert forall|j: int| 0 <= j < members@.len() implies round <= (
            #[trigger] members@[j])@.rounds.len() by {
                assert(views(members@)[j] == members@[j]@);
            }
        }
        let ghost vs = views(members@);
        let ghost kept = cache@;
        assert(vs == scene.members && kept == scene.kept);
        let face = Face::new(corners, members, round, img, cache, config);
        let ghost before = face_views(faces@);
        faces.push(face);
        proof {
            let v = order_by_height(corners.0, corners.1, corners.2);
            let key = canonical(v.0, v.1, v.2);
            let group = if kept.contains_key(key) {
                kept[key]
            } else {
                group_for(img, *config, v)
            };
            let first = owner_of(vs, round as int, v.0, 0);
            let second = owner_of(vs, round as int, v.1, 0);
            let third = owner_of(vs, round as int, v.2, 0);
            assert(face.points.0 as int == first);
            assert(face.points.1 as int == second);
            assert(face.points.2 as int == third);
            assert(face.fitness == group.fitness);
            assert(views(members@) == paid(
                paid(paid(vs, first, round as int, group.fitness), second, round as int, group.fitness),
                third,
                round as int,
                group.fitness,
            ));
            assert(face_views(faces@) =~= before.push(face@));
            assert(face@ == next.faces.last());
            assert(face_views(faces@) =~= next.faces);
            assert(views(members@) == next.members);
            assert(cache@ == next.kept);
        }
        k = k + 1;
    }
    proof {
        assert(triangles@.take(triangles@.len() as int) =~= triangles@);
    }
    faces
}

/// The picture gives a triangle the same colour and fitness in whatever
/// order its corners are given.
pub proof fn lemma_group_ignores_order(
    img: &Img,
    config: Config,
    v: (Point, Point, Point),
    w: (Point, Point, Point),
)
    requires
        same_corners(v, w),
    ensures
        group_for(img, config, w) == group_for(img, config, v),
{
    lemma_lattice_ignores_order(v, w);
}

/// What the cache holds is true to the picture: for every triangle that it
/// knows it holds the colour and the fitness that the picture gives the
/// triangle.
pub open spec fn coherent(kept: Map<(Point, Point, Point), Group>, img: &Img, config: Config) -> bool {
    forall|k: (Point, Point, Point)| #[trigger]
        kept.contains_key(k) ==> kept[k] == group_for(img, config, k)
}

/// A face has the colour and the fitness that the picture gives its
/// triangle.
pub open spec fn true_to_picture(face: FaceView, img: &Img, config: Config) -> bool {
    face.color == group_for(img, config, face.corners).color && face.fitness == group_for(
        img,
        config,
        face.corners,
    ).fitness
}

/// With a cache that is true to the picture, a face that is built is true
/// to the picture, and so is the cache afterwards.
pub proof fn lemma_with_face_is_true(
    scene: Scene,
    corners: (Point, Point, Point),
    round: int,
    img: &Img,
    config: Config,
)
    requires
        coherent(scene.kept, img, config),
    ensures
        coherent(with_face(scene, corners, round, img, config).kept, img, config),
        true_to_picture(with_face(scene, corners, round, img, config).faces.last(), img, config),
        with_face(scene, corners, round, img, config).faces.drop_last() == scene.faces,
{
    let v = order_by_height(corners.0, corners.1, corners.2);
    let key = canonical(v.0, v.1, v.2);
    lemma_canonical_is_sorted(v.0, v.1, v.2);
    assert(same_corners(v, key));
    lemma_group_ignores_order(img, config, v, key);
    let after = with_face(scene, corners, round, img, config);
    assert(after.faces.drop_last() =~= scene.faces);
    if scene.kept.contains_key(key) {
        assert(scene.kept[key] == group_for(img, config, key));
    }
    assert forall|k: (Point, Point, Point)| #[trigger] after.kept.contains_key(k) implies after.kept[k]
        == group_for(img, config, k) by {
        if k != key {
            assert(scene.kept.contains_key(k));
        }
    }
}

/// With a cache that is true to the picture, every face that is built is
/// true to the picture, and so is the cache afterwards.
pub proof fn lemma_built_is_true(
    triangles: Seq<(Point, Point, Point)>,
    start: Scene,
    round: int,
    img: &Img,
    config: Config,
)
    requires
        coherent(start.kept, img, config),
        forall|i: int| 0 <= i < start.faces.len() ==> true_to_picture(#[trigger] start.faces[i], img, config),
    ensures
        coherent(built(triangles, start, round, img, config).kept, img, config),
        forall|i: int|
            0 <= i < built(triangles, start, round, img, config).faces.len() ==> true_to_picture(
                #[trigger] built(triangles, start, round, img, config).faces[i],
                img,
                config,
            ),
    decreases triangles.len(),
{
    if triangles.len() > 0 {
        lemma_built_is_true(triangles.drop_last(), start, round, img, config);
        let sooner = built(triangles.drop_last(), start, round, img, config);
        lemma_with_face_is_true(sooner, triangles.last(), round, img, config);
        let out = built(triangles, start, round, img, config);
        assert forall|i: int| 0 <= i < out.faces.len() implies true_to_picture(
            #[trigger] out.faces[i],
            img,
            config,
        ) by {
            if i < out.faces.len() - 1 {
                assert(out.faces[i] == out.faces.drop_last()[i]);
            } else {
                assert(out.faces[i] == out.faces.last());
            }
        }
    }
}

/// Two corners that differ belong to two vertices.
pub proof fn lemma_owners_differ(members: Seq<MemberView>, round: int, a: Point, b: Point)
    requires
        a != b,
        owner_of(members, round, a, 0) < members.len(),
        owner_of(members, round, b, 0) < members.len(),
    ensures
        owner_of(members, round, a, 0) != owner_of(members, round, b, 0),
{
    lemma_owner_of(members, round, a, 0);
    lemma_owner_of(members, round, b, 0);
}

/// The three corners of the face are within `COORD_LIMIT` of zero.
pub open spec fn face_within_limit(face: FaceView) -> bool {
    &&& within_limit((face.corners.0.0, face.corners.0.1))
    &&& within_limit((face.corners.1.0, face.corners.1.1))
    &&& within_limit((face.corners.2.0, face.corners.2.1))
}

/// Faces that are built over points within the limit have their corners
/// within the limit.
pub proof fn lemma_built_within_limit(
    triangles: Seq<(Point, Point, Point)>,
    start: Scene,
    round: int,
    img: &Img,
    config: Config,
    points: Seq<(i32, i32)>,
)
    requires
        all_within_limit(points),
        corners_are_owned(triangles, points),
        forall|i: int| 0 <= i < start.faces.len() ==> face_within_limit(#[trigger] start.faces[i]),
    ensures
        forall|i: int|
            0 <= i < built(triangles, start, round, img, config).faces.len() ==> face_within_limit(
                #[trigger] built(triangles, start, round, img, config).faces[i],
            ),
    decreases triangles.len(),
{
    if triangles.len() > 0 {
        let sooner = triangles.drop_last();
        assert forall|t: int| 0 <= t < sooner.len() implies points.contains(
            ((#[trigger] sooner[t]).0.0, sooner[t].0.1),
        ) && points.contains((sooner[t].1.0, sooner[t].1.1)) && points.contains(
            (sooner[t].2.0, sooner[t].2.1),
        ) by {
            assert(sooner[t] == triangles[t]);
        }
        lemma_built_within_limit(sooner, start, round, img, config, points);
        let scene = built(sooner, start, round, img, config);
        let last = triangles[triangles.len() - 1];
        assert(points.contains((last.0.0, last.0.1)));
        assert(points.contains((last.1.0, last.1.1)));
        assert(points.contains((last.2.0, last.2.1)));
        lemma_order_by_height(last.0, last.1, last.2);
        let out = built(triangles, start, round, img, config);
        assert(out == with_face(scene, triangles.last(), round, img, config));
        assert forall|i: int| 0 <= i < out.faces.len() implies face_within_limit(
            #[trigger] out.faces[i],
        ) by {
            if i < scene.faces.len() {
                assert(out.faces[i] == scene.faces[i]);
            } else {
                assert(out.faces[i].corners == order_by_height(last.0, last.1, last.2));
            }
        }
    }
}

/// No two corners of the triangle are the same point.
pub open spec fn three_corners(t: (Point, Point, Point)) -> bool {
    t.0 != t.1 && t.0 != t.2 && t.1 != t.2
}

/// Every triangle has three corners.
pub open spec fn all_three_corners(triangles: Seq<(Point, Point, Point)>) -> bool {
    forall|t: int| 0 <= t < triangles.len() ==> three_corners(#[trigger] triangles[t])
}

/// The face belongs to the mesh over the points: each of its three
/// vertices stands at its corner, no two of its corners are the same point,
/// and no two of its vertices are the same.
pub open spec fn face_fits(face: FaceView, points: Seq<(i32, i32)>) -> bool {
    &&& face.points.0 < points.len()
    &&& face.points.1 < points.len()
    &&& face.points.2 < points.len()
    &&& points[face.points.0 as int] == (face.corners.0.0, face.corners.0.1)
    &&& points[face.points.1 as int] == (face.corners.1.0, face.corners.1.1)
    &&& points[face.points.2 as int] == (face.corners.2.0, face.corners.2.1)
    &&& three_corners(face.corners)
    &&& face.points.0 != face.points.1
    &&& face.points.0 != face.points.2
    &&& face.points.1 != face.points.2
}

/// Faces that are built over triangles with three corners each, all of
/// which are points of the round, belong to the mesh over those points.
pub proof fn lemma_built_fits(
    triangles: Seq<(Point, Point, Point)>,
    start: Scene,
    round: int,
    img: &Img,
    config: Config,
)
    requires
        0 <= round,
        start.members.len() <= usize::MAX,
        ready(start.members, round),
        corners_are_owned(triangles, round_points(start.members, round)),
        all_three_corners(triangles),
        forall|i: int|
            0 <= i < start.faces.len() ==> face_fits(
                #[trigger] start.faces[i],
                round_points(start.members, round),
            ),
    ensures
        forall|i: int|
            0 <= i < built(triangles, start, round, img, config).faces.len() ==> face_fits(
                #[trigger] built(triangles, start, round, img, config).faces[i],
                round_points(start.members, round),
            ),
    decreases triangles.len(),
{
    if triangles.len() > 0 {
        let points = round_points(start.members, round);
        let sooner = triangles.drop_last();
        assert forall|t: int| 0 <= t < sooner.len() implies points.contains(
            ((#[trigger] sooner[t]).0.0, sooner[t].0.1),
        ) && points.contains((sooner[t].1.0, sooner[t].1.1)) && points.contains(
            (sooner[t].2.0, sooner[t].2.1),
        ) by {
            assert(sooner[t] == triangles[t]);
        }
        assert forall|t: int| 0 <= t < sooner.len() implies three_corners(#[trigger] sooner[t]) by {
            assert(sooner[t] == triangles[t]);
        }
        lemma_built_fits(sooner, start, round, img, config);
        lemma_built(sooner, start, round, img, config);
        let scene = built(sooner, start, round, img, config);
        let last = triangles[triangles.len() - 1];
        assert(three_corners(last));
        assert(points.contains((last.0.0, last.0.1)));
        assert(points.contains((last.1.0, last.1.1)));
        assert(points.contains((last.2.0, last.2.1)));
        lemma_with_face(scene, last, round, img, config);
        lemma_order_by_height(last.0, last.1, last.2);
        let v = order_by_height(last.0, last.1, last.2);
        lemma_owner_of(scene.members, round, v.0, 0);
        lemma_owner_of(scene.members, round, v.1, 0);
        lemma_owner_of(scene.members, round, v.2, 0);
        let out = built(triangles, start, round, img, config);
        assert(out == with_face(scene, triangles.last(), round, img, config));
        assert forall|i: int| 0 <= i < out.faces.len() implies face_fits(
            #[trigger] out.faces[i],
            points,
        ) by {
            if i < scene.faces.len() {
                assert(out.faces[i] == scene.faces[i]);
            } else {
                let face = out.faces[i];
                let first = owner_of(scene.members, round, v.0, 0);
                let second = owner_of(scene.members, round, v.1, 0);
                let third = owner_of(scene.members, round, v.2, 0);
                assert(face.corners == v);
                assert(face.points.0 == first && face.points.1 == second && face.points.2 == third);
                assert(points[first] == (scene.members[first].point_at(round).0, scene.members[
                    first
                ].point_at(round).1));
                assert(points[second] == (scene.members[second].point_at(round).0, scene.members[
                    second
                ].point_at(round).1));
                assert(points[third] == (scene.members[third].point_at(round).0, scene.members[
                    third
                ].point_at(round).1));
            }
        }
    }
}

} // verus!
