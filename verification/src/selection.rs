use vstd::prelude::*;
use std::collections::HashSet;
use crate::face::{Face, FaceView};
use crate::point::Point;
use crate::triangulation::face_views;

verus! {

broadcast use vstd::std_specs::hash::group_hash_axioms;

/// `sorted` with `face` put in before the first face that is not fitter
/// than it.
pub open spec fn placed(face: FaceView, sorted: Seq<FaceView>) -> Seq<FaceView>
    decreases sorted.len(),
{
    if sorted.len() == 0 {
        seq![face]
    } else if sorted[0].fitness <= face.fitness {
        seq![face] + sorted
    } else {
        seq![sorted[0]] + placed(face, sorted.drop_first())
    }
}

/// The faces with the fittest first. Faces of equal fitness keep their
/// order.
pub open spec fn by_fitness(faces: Seq<FaceView>) -> Seq<FaceView>
    decreases faces.len(),
{
    if faces.len() == 0 {
        Seq::empty()
    } else {
        placed(faces[0], by_fitness(faces.drop_first()))
    }
}

/// Two runs of faces shuffled into one: always the fitter of the two
/// faces in front comes next, and the one of the first run if they are
/// equally fit.
pub open spec fn merged(left: Seq<FaceView>, right: Seq<FaceView>) -> Seq<FaceView>
    decreases left.len() + right.len(),
{
    if left.len() == 0 {
        right
    } else if right.len() == 0 {
        left
    } else if left[0].fitness >= right[0].fitness {
        seq![left[0]] + merged(left.drop_first(), right)
    } else {
        seq![right[0]] + merged(left, right.drop_first())
    }
}

proof fn lemma_cons_parts(head: FaceView, tail: Seq<FaceView>)
    ensures
        (seq![head] + tail).len() == tail.len() + 1,
        (seq![head] + tail)[0] == head,
        (seq![head] + tail).drop_first() == tail,
{
    assert((seq![head] + tail).drop_first() =~= tail);
}

proof fn lemma_placed_len(face: FaceView, sorted: Seq<FaceView>)
    ensures
        placed(face, sorted).len() == sorted.len() + 1,
    decreases sorted.len(),
{
    if sorted.len() > 0 && !(sorted[0].fitness <= face.fitness) {
        lemma_placed_len(face, sorted.drop_first());
    }
}

proof fn lemma_merged_len(left: Seq<FaceView>, right: Seq<FaceView>)
    ensures
        merged(left, right).len() == left.len() + right.len(),
    decreases left.len() + right.len(),
{
    if left.len() == 0 || right.len() == 0 {
    } else if left[0].fitness >= right[0].fitness {
        lemma_merged_len(left.drop_first(), right);
    } else {
        lemma_merged_len(left, right.drop_first());
    }
}

/// A face that is put into the first run before the runs are shuffled
/// ends up where it would be put into the shuffled run.
proof fn lemma_placed_then_merged(face: FaceView, left: Seq<FaceView>, right: Seq<FaceView>)
    ensures
        merged(placed(face, left), right) == placed(face, merged(left, right)),
    decreases left.len() + right.len(),
{
    let both = merged(left, right);
    if right.len() == 0 {
        lemma_placed_len(face, left);
        if left.len() == 0 {
        }
    } else if left.len() == 0 {
        // placed(face, left) is the face alone
        lemma_cons_parts(face, Seq::empty());
        assert(seq![face].drop_first() =~= Seq::<FaceView>::empty());
        if face.fitness >= right[0].fitness {
            assert(merged(seq![face], right) == seq![face] + merged(Seq::empty(), right));
        } else {
            lemma_placed_then_merged(face, left, right.drop_first());
            assert(merged(seq![face], right) == seq![right[0]] + merged(
                seq![face],
                right.drop_first(),
            ));
            assert(placed(face, left) == seq![face]);
        }
    } else if left[0].fitness <= face.fitness {
        let with = seq![face] + left;
        lemma_cons_parts(face, left);
        lemma_merged_len(left, right);
        if face.fitness >= right[0].fitness {
            assert(merged(with, right) == seq![face] + both);
            if left[0].fitness >= right[0].fitness {
                lemma_cons_parts(left[0], merged(left.drop_first(), right));
            } else {
                lemma_cons_parts(right[0], merged(left, right.drop_first()));
            }
            assert(both[0].fitness <= face.fitness);
        } else {
            lemma_placed_then_merged(face, left, right.drop_first());
            assert(merged(with, right) == seq![right[0]] + merged(with, right.drop_first()));
            let rest = merged(left, right.drop_first());
            assert(both == seq![right[0]] + rest);
            lemma_cons_parts(right[0], rest);
        }
    } else {
        let with = seq![left[0]] + placed(face, left.drop_first());
        lemma_cons_parts(left[0], placed(face, left.drop_first()));
        if left[0].fitness >= right[0].fitness {
            lemma_placed_then_merged(face, left.drop_first(), right);
            let rest = merged(left.drop_first(), right);
            assert(both == seq![left[0]] + rest);
            lemma_cons_parts(left[0], rest);
            assert(merged(with, right) == seq![left[0]] + merged(
                placed(face, left.drop_first()),
                right,
            ));
        } else {
            lemma_placed_then_merged(face, left, right.drop_first());
            let rest = merged(left, right.drop_first());
            assert(both == seq![right[0]] + rest);
            lemma_cons_parts(right[0], rest);
            assert(merged(with, right) == seq![right[0]] + merged(with, right.drop_first()));
        }
    }
}

/// Two runs that are brought in order and then shuffled into one are the
/// two runs, one behind the other, brought in order.
pub proof fn lemma_by_fitness_of_two_runs(first: Seq<FaceView>, second: Seq<FaceView>)
    ensures
        by_fitness(first + second) == merged(by_fitness(first), by_fitness(second)),
    decreases first.len(),
{
    if first.len() == 0 {
        assert(first + second =~= second);
    } else {
        let all = first + second;
        assert(all.drop_first() =~= first.drop_first() + second);
        assert(all[0] == first[0]);
        lemma_by_fitness_of_two_runs(first.drop_first(), second);
        lemma_placed_then_merged(
            first[0],
            by_fitness(first.drop_first()),
            by_fitness(second),
        );
    }
}

/// Shuffles two runs of faces into one.
fn merge_runs(left: &Vec<Face>, right: &Vec<Face>) -> (out: Vec<Face>)
    ensures
        face_views(out@) == merged(face_views(left@), face_views(right@)),
{
    let ghost l = face_views(left@);
    let ghost r = face_views(right@);
    let mut out: Vec<Face> = Vec::new();
    let mut i: usize = 0;
    let mut j: usize = 0;
    proof {
        assert(l.skip(0) =~= l);
        assert(r.skip(0) =~= r);
        assert(face_views(out@) + merged(l, r) =~= merged(l, r));
    }
    while i < left.len() || j < right.len()
        invariant
            i <= left@.len(),
            j <= right@.len(),
            l == face_views(left@),
            r == face_views(right@),
            face_views(out@) + merged(l.skip(i as int), r.skip(j as int)) == merged(l, r),
        decreases left.len() - i + right.len() - j,
    {
        let ghost before = face_views(out@);
        let ghost ls = l.skip(i as int);
        let ghost rs = r.skip(j as int);
        let from_left = if i >= left.len() {
            false
        } else if j >= right.len() {
            true
        } else {
            left[i].fitness >= right[j].fitness
        };
        proof {
            if i < left@.len() {
                assert(ls[0] == left@[i as int]@);
                assert(ls.drop_first() =~= l.skip(i + 1));
            }
            if j < right@.len() {
                assert(rs[0] == right@[j as int]@);
                assert(rs.drop_first() =~= r.skip(j + 1));
            }
        }
        if from_left {
            out.push(left[i]);
            proof {
                assert(face_views(out@) =~= before.push(ls[0]));
                if rs.len() == 0 {
                    assert(merged(ls, rs) == ls);
                    assert(merged(ls.drop_first(), rs) == ls.drop_first());
                    assert(ls =~= seq![ls[0]] + ls.drop_first());
                }
                assert(merged(ls, rs) == seq![ls[0]] + merged(ls.drop_first(), rs));
                assert(before.push(ls[0]) + merged(ls.drop_first(), rs) =~= before + (seq![ls[0]]
                    + merged(ls.drop_first(), rs)));
            }
            i = i + 1;
        } else {
            out.push(right[j]);
            proof {
                assert(face_views(out@) =~= before.push(rs[0]));
                if ls.len() == 0 {
                    assert(merged(ls, rs) == rs);
                    assert(merged(ls, rs.drop_first()) == rs.drop_first());
                    assert(rs =~= seq![rs[0]] + rs.drop_first());
                }
                assert(merged(ls, rs) == seq![rs[0]] + merged(ls, rs.drop_first()));
                assert(before.push(rs[0]) + merged(ls, rs.drop_first()) =~= before + (seq![rs[0]]
                    + merged(ls, rs.drop_first())));
            }
            j = j + 1;
        }
    }
    proof {
        assert(l.skip(i as int) =~= Seq::<FaceView>::empty());
        assert(face_views(out@) + Seq::<FaceView>::empty() =~= face_views(out@));
    }
    out
}

/// The faces from place `from` up to place `to`, brought in order.
fn sort_run(faces: &Vec<Face>, from: usize, to: usize) -> (sorted: Vec<Face>)
    requires
        from <= to <= faces@.len(),
    ensures
        face_views(sorted@) == by_fitness(face_views(faces@).subrange(from as int, to as int)),
    decreases to - from,
{
    let ghost all = face_views(faces@);
    let mut sorted: Vec<Face> = Vec::new();
    if to - from == 0 {
        proof {
            assert(all.subrange(from as int, to as int) =~= Seq::<FaceView>::empty());
            assert(face_views(sorted@) =~= Seq::<FaceView>::empty());
        }
        return sorted;
    }
    if to - from == 1 {
        sorted.push(faces[from]);
        proof {
            let one = all.subrange(from as int, to as int);
            assert(one.drop_first() =~= Seq::<FaceView>::empty());
            assert(by_fitness(one.drop_first()) =~= Seq::<FaceView>::empty());
            assert(by_fitness(one) == placed(one[0], Seq::empty()));
            assert(face_views(sorted@) =~= seq![one[0]]);
        }
        return sorted;
    }
    let middle = from + (to - from) / 2;
    let left = sort_run(faces, from, middle);
    let right = sort_run(faces, middle, to);
    proof {
        assert(all.subrange(from as int, to as int) =~= all.subrange(from as int, middle as int)
            + all.subrange(middle as int, to as int));
        lemma_by_fitness_of_two_runs(
            all.subrange(from as int, middle as int),
            all.subrange(middle as int, to as int),
        );
    }
    merge_runs(&left, &right)
}

/// Brings the faces in order, the fittest first.
pub fn sort_faces(faces: &Vec<Face>) -> (sorted: Vec<Face>)
    ensures
        face_views(sorted@) == by_fitness(face_views(faces@)),
{
    proof {
        assert(face_views(faces@).subrange(0, faces@.len() as int) =~= face_views(faces@));
    }
    sort_run(faces, 0, faces.len())
}

/// The points that were chosen so far, with the vertices that they belong
/// to.
pub struct Pick {
    pub points: Seq<(i32, i32)>,
    pub seen: Set<usize>,
}

/// The choice after the corner `p` of vertex `id` was looked at: the
/// corner is taken if the choice is not full and has nothing of the vertex
/// yet.
pub open spec fn with_corner(pick: Pick, id: usize, p: Point, target: int) -> Pick {
    if pick.points.len() < target && !pick.seen.contains(id) {
        Pick { points: pick.points.push((p.0, p.1)), seen: pick.seen.insert(id) }
    } else {
        pick
    }
}

/// The choice after the three corners of a face were looked at, in their
/// order.
pub open spec fn with_corners(pick: Pick, face: FaceView, target: int) -> Pick {
    with_corner(
        with_corner(
            with_corner(pick, face.points.0, face.corners.0, target),
            face.points.1,
            face.corners.1,
            target,
        ),
        face.points.2,
        face.corners.2,
        target,
    )
}

/// The choice of up to `target` points from the faces, in their order: of
/// every vertex the corner that comes first.
pub open spec fn picked(faces: Seq<FaceView>, target: int) -> Pick
    decreases faces.len(),
{
    if faces.len() == 0 {
        Pick { points: Seq::empty(), seen: Set::empty() }
    } else {
        with_corners(picked(faces.drop_last(), target), faces.last(), target)
    }
}

/// The points of the fittest faces: up to `target` points, one for each
/// vertex, taken from the faces in the order of their fitness.
pub open spec fn best_points(faces: Seq<FaceView>, target: int) -> Seq<(i32, i32)> {
    picked(by_fitness(faces), target).points
}

/// A choice holds one point for each vertex that it has seen, and no more
/// points than it was to hold.
pub proof fn lemma_picked(faces: Seq<FaceView>, target: int)
    requires
        0 <= target,
    ensures
        picked(faces, target).points.len() <= target,
        picked(faces, target).seen.finite(),
        picked(faces, target).seen.len() == picked(faces, target).points.len(),
    decreases faces.len(),
{
    if faces.len() > 0 {
        lemma_picked(faces.drop_last(), target);
    }
}

fn take_corner(
    points: &mut Vec<(i32, i32)>,
    seen: &mut HashSet<usize>,
    id: usize,
    p: Point,
    target: usize,
)
    ensures
        (Pick { points: final(points)@, seen: final(seen)@ }) == with_corner(
            Pick { points: old(points)@, seen: old(seen)@ },
            id,
            p,
            target as int,
        ),
{
    if points.len() < target && !seen.contains(&id) {
        points.push(p.values());
        seen.insert(id);
    }
}

/// Chooses up to `target` points from the faces, the fittest first: of
/// every vertex the corner that comes first.
pub fn choose_points(faces: &Vec<Face>, target: usize) -> (points: Vec<(i32, i32)>)
    ensures
        points@ == best_points(face_views(faces@), target as int),
        points@.len() <= target,
{
    let sorted = sort_faces(faces);
    let ghost order = face_views(sorted@);
    let mut points: Vec<(i32, i32)> = Vec::new();
    let mut seen: HashSet<usize> = HashSet::new();
    let mut i: usize = 0;
    proof {
        assert(order.take(0) =~= Seq::<FaceView>::empty());
    }
    while i < sorted.len()
        invariant
            i <= sorted@.len(),
            order == face_views(sorted@),
            (Pick { points: points@, seen: seen@ }) == picked(order.take(i as int), target as int),
        decreases sorted.len() - i,
    {
        let face = sorted[i];
        let (v0, v1, v2) = face.triangle.vertices();
        proof {
            assert(order.take(i + 1).drop_last() =~= order.take(i as int));
            assert(order.take(i + 1).last() == face@);
        }
        take_corner(&mut points, &mut seen, face.points.0, v0, target);
        take_corner(&mut points, &mut seen, face.points.1, v1, target);
        take_corner(&mut points, &mut seen, face.points.2, v2, target);
        i = i + 1;
    }
    proof {
        assert(order.take(sorted@.len() as int) =~= order);
        lemma_picked(order, target as int);
    }
    points
}

/// No face stands before a fitter one.
pub open spec fn fittest_first(faces: Seq<FaceView>) -> bool {
    forall|i: int, j: int|
        0 <= i <= j < faces.len() ==> (#[trigger] faces[i]).fitness >= (#[trigger] faces[j]).fitness
}

proof fn lemma_placed_keeps_order(face: FaceView, sorted: Seq<FaceView>)
    requires
        fittest_first(sorted),
    ensures
        fittest_first(placed(face, sorted)),
        placed(face, sorted).to_multiset() == sorted.to_multiset().insert(face),
    decreases sorted.len(),
{
    broadcast use {vstd::seq_lib::group_to_multiset_ensures, vstd::multiset::group_multiset_axioms};

    let out = placed(face, sorted);
    if sorted.len() == 0 {
        assert(out =~= Seq::<FaceView>::empty().push(face));
    } else if sorted[0].fitness <= face.fitness {
        assert(out =~= seq![face] + sorted);
        assert forall|i: int, j: int| 0 <= i <= j < out.len() implies (#[trigger] out[i]).fitness >= (
        #[trigger] out[j]).fitness by {
            if i == 0 {
                if j > 0 {
                    assert(out[j] == sorted[j - 1]);
                    assert(sorted[0].fitness >= sorted[j - 1].fitness);
                }
            } else {
                assert(out[i] == sorted[i - 1]);
                assert(out[j] == sorted[j - 1]);
            }
        }
        assert(out =~= sorted.insert(0, face));
        vstd::seq_lib::to_multiset_insert(sorted, 0, face);
    } else {
        let rest = sorted.drop_first();
        assert forall|i: int, j: int| 0 <= i <= j < rest.len() implies (#[trigger] rest[i]).fitness >= (
        #[trigger] rest[j]).fitness by {
            assert(rest[i] == sorted[i + 1]);
            assert(rest[j] == sorted[j + 1]);
        }
        lemma_placed_keeps_order(face, rest);
        let tail = placed(face, rest);
        assert(out == seq![sorted[0]] + tail);
        assert forall|i: int| 0 <= i < tail.len() implies sorted[0].fitness >= (
        #[trigger] tail[i]).fitness by {
            // every face of the tail is the new face or a face of the rest
            assert(tail.contains(tail[i]));
            assert(tail.to_multiset().count(tail[i]) > 0);
            if tail[i] == face {
            } else {
                assert(rest.to_multiset().count(tail[i]) > 0);
                assert(rest.contains(tail[i]));
                let k = choose|k: int| 0 <= k < rest.len() && rest[k] == tail[i];
                assert(rest[k] == sorted[k + 1]);
                assert(sorted[0].fitness >= sorted[k + 1].fitness);
            }
        }
        assert forall|i: int, j: int| 0 <= i <= j < out.len() implies (#[trigger] out[i]).fitness >= (
        #[trigger] out[j]).fitness by {
            if i == 0 {
                if j > 0 {
                    assert(out[j] == tail[j - 1]);
                }
            } else {
                assert(out[i] == tail[i - 1]);
                assert(out[j] == tail[j - 1]);
            }
        }
        assert(out =~= tail.insert(0, sorted[0]));
        vstd::seq_lib::to_multiset_insert(tail, 0, sorted[0]);
        assert(sorted =~= rest.insert(0, sorted[0]));
        vstd::seq_lib::to_multiset_insert(rest, 0, sorted[0]);
        assert(out.to_multiset() =~= sorted.to_multiset().insert(face));
    }
}

/// Bringing faces in order keeps every face, and puts the fittest first.
pub proof fn lemma_by_fitness(faces: Seq<FaceView>)
    ensures
        fittest_first(by_fitness(faces)),
        by_fitness(faces).to_multiset() == faces.to_multiset(),
        by_fitness(faces).len() == faces.len(),
    decreases faces.len(),
{
    broadcast use vstd::seq_lib::group_to_multiset_ensures;

    if faces.len() == 0 {
    } else {
        let rest = faces.drop_first();
        lemma_by_fitness(rest);
        lemma_placed_keeps_order(faces[0], by_fitness(rest));
        lemma_placed_len(faces[0], by_fitness(rest));
        assert(faces =~= rest.insert(0, faces[0]));
        vstd::seq_lib::to_multiset_insert(rest, 0, faces[0]);
    }
}

/// Vertex `id` owns a corner of the face.
pub open spec fn names(face: FaceView, id: usize) -> bool {
    face.points.0 == id || face.points.1 == id || face.points.2 == id
}

/// Vertex `id` owns a corner of one of the faces.
pub open spec fn occurs_in(faces: Seq<FaceView>, id: usize) -> bool {
    exists|i: int| 0 <= i < faces.len() && names(#[trigger] faces[i], id)
}

/// A choice has seen vertices of the faces only, and unless it is full it
/// has seen every one of them.
pub proof fn lemma_picked_full_or_complete(faces: Seq<FaceView>, target: int)
    requires
        0 <= target,
    ensures
        forall|id: usize| #[trigger]
            picked(faces, target).seen.contains(id) ==> occurs_in(faces, id),
        picked(faces, target).points.len() < target ==> (forall|id: usize| #[trigger]
            occurs_in(faces, id) ==> picked(faces, target).seen.contains(id)),
    decreases faces.len(),
{
    if faces.len() > 0 {
        let sooner = faces.drop_last();
        let face = faces.last();
        lemma_picked_full_or_complete(sooner, target);
        lemma_picked(sooner, target);
        let zero = picked(sooner, target);
        let one = with_corner(zero, face.points.0, face.corners.0, target);
        let two = with_corner(one, face.points.1, face.corners.1, target);
        let three = with_corner(two, face.points.2, face.corners.2, target);
        assert(three == picked(faces, target));
        assert forall|id: usize| three.seen.contains(id) implies occurs_in(faces, id) by {
            if zero.seen.contains(id) {
                assert(occurs_in(sooner, id));
                let i = choose|i: int| 0 <= i < sooner.len() && names(#[trigger] sooner[i], id);
                assert(faces[i] == sooner[i]);
            } else {
                assert(names(faces[faces.len() - 1], id));
            }
        }
        if three.points.len() < target {
            assert(zero.points.len() < target);
            assert forall|id: usize| occurs_in(faces, id) implies three.seen.contains(id) by {
                let i = choose|i: int| 0 <= i < faces.len() && names(#[trigger] faces[i], id);
                if i < faces.len() - 1 {
                    assert(sooner[i] == faces[i]);
                    assert(occurs_in(sooner, id));
                }
            }
        }
    }
}

/// Bringing faces in order keeps the vertices that occur in them.
pub proof fn lemma_by_fitness_keeps_vertices(faces: Seq<FaceView>, id: usize)
    ensures
        occurs_in(by_fitness(faces), id) == occurs_in(faces, id),
{
    broadcast use {vstd::seq_lib::group_to_multiset_ensures, vstd::multiset::group_multiset_axioms};

    let sorted = by_fitness(faces);
    lemma_by_fitness(faces);
    if occurs_in(faces, id) {
        let i = choose|i: int| 0 <= i < faces.len() && names(#[trigger] faces[i], id);
        assert(faces.contains(faces[i]));
        assert(sorted.to_multiset().count(faces[i]) > 0);
        assert(sorted.contains(faces[i]));
        let k = choose|k: int| 0 <= k < sorted.len() && sorted[k] == faces[i];
        assert(names(sorted[k], id));
    }
    if occurs_in(sorted, id) {
        let i = choose|i: int| 0 <= i < sorted.len() && names(#[trigger] sorted[i], id);
        assert(sorted.contains(sorted[i]));
        assert(faces.to_multiset().count(sorted[i]) > 0);
        assert(faces.contains(sorted[i]));
        let k = choose|k: int| 0 <= k < faces.len() && faces[k] == sorted[i];
        assert(names(faces[k], id));
    }
}

/// The best points are as many as were asked for, unless the faces have
/// fewer vertices: then there is a point for each vertex of the faces.
pub proof fn lemma_best_points_full_or_complete(faces: Seq<FaceView>, target: int)
    requires
        0 <= target,
    ensures
        best_points(faces, target).len() <= target,
        best_points(faces, target).len() == picked(by_fitness(faces), target).seen.len(),
        best_points(faces, target).len() < target ==> (forall|id: usize| #[trigger]
            occurs_in(faces, id) ==> picked(by_fitness(faces), target).seen.contains(id)),
{
    lemma_picked(by_fitness(faces), target);
    lemma_picked_full_or_complete(by_fitness(faces), target);
    assert forall|id: usize| occurs_in(faces, id) implies occurs_in(by_fitness(faces), id) by {
        lemma_by_fitness_keeps_vertices(faces, id);
    }
}

/// `p` is a corner of the face.
pub open spec fn corner_of(face: FaceView, p: (i32, i32)) -> bool {
    p == (face.corners.0.0, face.corners.0.1) || p == (face.corners.1.0, face.corners.1.1) || p
        == (face.corners.2.0, face.corners.2.1)
}

/// `p` is a corner of one of the faces.
pub open spec fn corner_in(faces: Seq<FaceView>, p: (i32, i32)) -> bool {
    exists|i: int| 0 <= i < faces.len() && corner_of(#[trigger] faces[i], p)
}

/// Every point of a choice is a corner of one of the faces.
pub proof fn lemma_picked_are_corners(faces: Seq<FaceView>, target: int)
    ensures
        forall|j: int|
            0 <= j < picked(faces, target).points.len() ==> corner_in(
                faces,
                #[trigger] picked(faces, target).points[j],
            ),
    decreases faces.len(),
{
    if faces.len() > 0 {
        let sooner = faces.drop_last();
        let face = faces.last();
        lemma_picked_are_corners(sooner, target);
        let zero = picked(sooner, target);
        let one = with_corner(zero, face.points.0, face.corners.0, target);
        let two = with_corner(one, face.points.1, face.corners.1, target);
        let three = with_corner(two, face.points.2, face.corners.2, target);
        assert(three == picked(faces, target));
        assert forall|j: int| 0 <= j < three.points.len() implies corner_in(
            faces,
            #[trigger] three.points[j],
        ) by {
            if j < zero.points.len() {
                assert(three.points[j] == zero.points[j]);
                assert(corner_in(sooner, zero.points[j]));
                let i = choose|i: int|
                    0 <= i < sooner.len() && corner_of(#[trigger] sooner[i], zero.points[j]);
                assert(faces[i] == sooner[i]);
            } else {
                assert(corner_of(faces[faces.len() - 1], three.points[j]));
            }
        }
    }
}

/// Every one of the best points is a corner of one of the faces.
pub proof fn lemma_best_points_are_corners(faces: Seq<FaceView>, target: int)
    ensures
        forall|j: int|
            0 <= j < best_points(faces, target).len() ==> corner_in(
                faces,
                #[trigger] best_points(faces, target)[j],
            ),
{
    broadcast use {vstd::seq_lib::group_to_multiset_ensures, vstd::multiset::group_multiset_axioms};

    let sorted = by_fitness(faces);
    lemma_picked_are_corners(sorted, target);
    lemma_by_fitness(faces);
    let points = best_points(faces, target);
    assert forall|j: int| 0 <= j < points.len() implies corner_in(faces, #[trigger] points[j]) by {
        assert(corner_in(sorted, points[j]));
        let i = choose|i: int| 0 <= i < sorted.len() && corner_of(#[trigger] sorted[i], points[j]);
        assert(sorted.contains(sorted[i]));
        assert(faces.to_multiset().count(sorted[i]) > 0);
        assert(faces.contains(sorted[i]));
        let k = choose|k: int| 0 <= k < faces.len() && faces[k] == sorted[i];
        assert(corner_of(faces[k], points[j]));
    }
}

} // verus!
