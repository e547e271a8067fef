use vstd::prelude::*;
use crate::cache::{canonical, Cache};
use crate::config::Config;
use crate::img::Img;
use crate::member::{Member, MemberView};
use crate::pixel_group::{group_of, Color, Group};
use crate::point::Point;
use crate::triangle::{covers, lattice_of, order_by_height, Triangle};

verus! {

/// `p` is a pixel of the picture.
pub open spec fn in_picture(img: &Img, p: Point) -> bool {
    0 <= p.0 < img.size().0 && 0 <= p.1 < img.size().1
}

/// The colours of the picture at `points`, in their order. Points outside
/// of the picture are passed over.
pub open spec fn sampled(img: &Img, points: Seq<Point>) -> Seq<Color>
    decreases points.len(),
{
    if points.len() == 0 {
        Seq::empty()
    } else {
        let rest = sampled(img, points.drop_last());
        if in_picture(img, points.last()) {
            rest.push(img.color_at(points.last().0 as int, points.last().1 as int))
        } else {
            rest
        }
    }
}

/// The colour and the fitness that the picture gives to the triangle with
/// the corners `v`.
pub open spec fn group_for(img: &Img, config: Config, v: (Point, Point, Point)) -> Group {
    group_of(sampled(img, lattice_of(v)), config)
}

/// The colours of the pixels that the triangle covers.
fn face_pixels(triangle: &Triangle, img: &Img) -> (pixels: Vec<Color>)
    ensures
        pixels@ == sampled(img, triangle.lattice_points()),
{
    let (width, height) = img.dimensions();
    let mut pixels: Vec<Color> = Vec::new();
    let mut walk = triangle.iter();
    let ghost all = triangle.lattice_points();
    let ghost mut done: int = 0;
    proof {
        assert(all.skip(0) =~= all);
        assert(all.take(0) =~= Seq::<Point>::empty());
    }
    loop
        invariant
            0 <= done <= all.len(),
            walk.remaining() == all.skip(done),
            pixels@ == sampled(img, all.take(done)),
            (width, height) == img.size(),
        ensures
            pixels@ == sampled(img, all),
        decreases all.len() - done,
    {
        match walk.next() {
            Some(p) => {
                proof {
                    assert(all.skip(done)[0] == all[done]);
                    assert(all.skip(done).skip(1) =~= all.skip(done + 1));
                    assert(all.take(done + 1).drop_last() =~= all.take(done));
                    assert(all.take(done + 1).last() == p);
                    done = done + 1;
                }
                if p.0 >= 0 && p.1 >= 0 && (p.0 as u32) < width && (p.1 as u32) < height {
                    pixels.push(img.get_pixel(p.0 as u32, p.1 as u32));
                }
            },
            None => {
                proof {
                    assert(all.skip(done).len() == all.len() - done);
                    assert(all.take(done) =~= all);
                }
                break ;
            },
        }
    }
    pixels
}

/// Works out the colour and the fitness of a triangle from the picture.
pub fn face_group(triangle: &Triangle, img: &Img, config: &Config) -> (group: Group)
    requires
        config.wf(),
    ensures
        group == group_for(img, *config, triangle.corners()),
{
    let pixels = face_pixels(triangle, img);
    Group::new(&pixels, config)
}

/// The vertices in terms of plain values.
pub open spec fn views(members: Seq<Member>) -> Seq<MemberView> {
    Seq::new(members.len(), |i: int| members[i]@)
}

/// The first vertex at or behind `from` that stands at `v` in the round, or
/// the number of vertices if there is none.
pub open spec fn owner_of(members: Seq<MemberView>, round: int, v: Point, from: int) -> int
    decreases members.len() - from,
{
    if from < 0 || from >= members.len() {
        members.len() as int
    } else if members[from].point_at(round) == v {
        from
    } else {
        owner_of(members, round, v, from + 1)
    }
}

/// The owner of a point stands at it, and no vertex before the owner does.
pub proof fn lemma_owner_of(members: Seq<MemberView>, round: int, v: Point, from: int)
    requires
        0 <= from <= members.len(),
    ensures
        from <= owner_of(members, round, v, from) <= members.len(),
        owner_of(members, round, v, from) < members.len() ==> members[owner_of(
            members,
            round,
            v,
            from,
        )].point_at(round) == v,
        forall|j: int|
            from <= j < owner_of(members, round, v, from) ==> (#[trigger] members[j]).point_at(round)
                != v,
    decreases members.len() - from,
{
    if from < members.len() && members[from].point_at(round) != v {
        lemma_owner_of(members, round, v, from + 1);
    }
}

/// The vertices after `fitness` came in for vertex `i` in the round.
pub open spec fn paid(members: Seq<MemberView>, i: int, round: int, fitness: u64) -> Seq<
    MemberView,
> {
    members.update(i, members[i].credited(round, fitness))
}

fn find_owner(members: &Vec<Member>, round: usize, v: Point) -> (i: usize)
    requires
        forall|j: int| 0 <= j < members@.len() ==> round <= (#[trigger] members@[j])@.rounds.len(),
    ensures
        i == owner_of(views(members@), round as int, v, 0),
{
    let mut i: usize = 0;
    while i < members.len()
        invariant
            i <= members@.len(),
            forall|j: int|
                0 <= j < members@.len() ==> round <= (#[trigger] members@[j])@.rounds.len(),
            owner_of(views(members@), round as int, v, 0) == owner_of(
                views(members@),
                round as int,
                v,
                i as int,
            ),
        decreases members.len() - i,
    {
        assert(views(members@)[i as int] == members@[i as int]@);
        if members[i].point(round) == v {
            return i;
        }
        i = i + 1;
    }
    i
}

/// A face in terms of plain values.
pub struct FaceView {
    pub points: (usize, usize, usize),
    pub color: Color,
    pub fitness: u64,
    pub corners: (Point, Point, Point),
}

/// A triangle of the mesh with the three vertices that own its corners, its
/// colour and its fitness.
#[derive(Clone, Copy, Debug)]
pub struct Face {
    /// The vertices that own the corners, in the order of the corners.
    pub points: (usize, usize, usize),
    pub color: Color,
    pub fitness: u64,
    pub triangle: Triangle,
}

impl Face {
    /// The face in terms of plain values.
    pub open spec fn view(&self) -> FaceView {
        FaceView {
            points: self.points,
            color: self.color,
            fitness: self.fitness,
            corners: self.triangle.corners(),
        }
    }

    /// Whether `vertex` is a corner of the face.
    pub fn has_vertex(&self, vertex: Point) -> (has: bool)
        ensures
            has == (vertex == self@.corners.0 || vertex == self@.corners.1 || vertex
                == self@.corners.2),
    {
        let (v0, v1, v2) = self.triangle.vertices();
        vertex == v0 || vertex == v1 || vertex == v2
    }

    /// Whether each of the three points is a corner of the face.
    pub fn is_same(&self, corners: (Point, Point, Point)) -> (same: bool)
        ensures
            same == ({
                let v = self@.corners;
                &&& (corners.0 == v.0 || corners.0 == v.1 || corners.0 == v.2)
                &&& (corners.1 == v.0 || corners.1 == v.1 || corners.1 == v.2)
                &&& (corners.2 == v.0 || corners.2 == v.1 || corners.2 == v.2)
            }),
    {
        self.has_vertex(corners.0) && self.has_vertex(corners.1) && self.has_vertex(corners.2)
    }

    /// Builds the face over three corners that a triangulation of the round
    /// handed back.
    ///
    /// Each corner is given to the first vertex that stands at it in the
    /// round, so that corners that differ belong to vertices that differ.
    /// The colour and the fitness come from the cache where it holds them
    /// for the triangle, and else from the pixels that the triangle covers;
    /// the cache keeps them from then on. The fitness comes in for each of
    /// the three vertices in the round.
    pub fn new(
        corners: (Point, Point, Point),
        members: &mut Vec<Member>,
        round: usize,
        img: &Img,
        cache: &mut Cache,
        config: &Config,
    ) -> (face: Face)
        requires
            config.wf(),
            forall|j: int|
                0 <= j < old(members)@.len() ==> round <= (#[trigger] old(members)@[j])@.rounds.len(),
            ({
                let v = order_by_height(corners.0, corners.1, corners.2);
                let vs = views(old(members)@);
                &&& owner_of(vs, round as int, v.0, 0) < vs.len()
                &&& owner_of(vs, round as int, v.1, 0) < vs.len()
                &&& owner_of(vs, round as int, v.2, 0) < vs.len()
            }),
        ensures
            ({
                let v = order_by_height(corners.0, corners.1, corners.2);
                let vs = views(old(members)@);
                let key = canonical(v.0, v.1, v.2);
                let group = if old(cache)@.contains_key(key) {
                    old(cache)@[key]
                } else {
                    group_for(img, *config, v)
                };
                &&& face.triangle.corners() == v
                &&& face.points.0 == owner_of(vs, round as int, v.0, 0)
                &&& face.points.1 == owner_of(vs, round as int, v.1, 0)
                &&& face.points.2 == owner_of(vs, round as int, v.2, 0)
                &&& v.0 != v.1 ==> face.points.0 != face.points.1
                &&& v.0 != v.2 ==> face.points.0 != face.points.2
                &&& v.1 != v.2 ==> face.points.1 != face.points.2
                &&& face.color == group.color
                &&& face.fitness == group.fitness
                &&& final(cache)@ == old(cache)@.insert(key, group)
                &&& views(final(members)@) == paid(
                    paid(
                        paid(vs, face.points.0 as int, round as int, group.fitness),
                        face.points.1 as int,
                        round as int,
                        group.fitness,
                    ),
                    face.points.2 as int,
                    round as int,
                    group.fitness,
                )
            }),
    {
        let triangle = Triangle::new(corners.0, corners.1, corners.2);
        let (v0, v1, v2) = triangle.vertices();
        let m1 = find_owner(members, round, v0);
        let m2 = find_owner(members, round, v1);
        let m3 = find_owner(members, round, v2);
        let ghost key = canonical(v0, v1, v2);
        let ghost kept = cache@;
        let calc = || -> (g: Group)
            ensures
                g == group_for(img, *config, triangle.corners()),
            { face_group(&triangle, img, config) };
        let group = cache.insert(v0, v1, v2, calc);
        proof {
            if kept.contains_key(key) {
                assert(cache@ =~= kept.insert(key, group));
            }
        }
        let face = Face { points: (m1, m2, m3), color: group.color, fitness: group.fitness, triangle };
        proof {
            lemma_owner_of(views(members@), round as int, v0, 0);
            lemma_owner_of(views(members@), round as int, v1, 0);
            lemma_owner_of(views(members@), round as int, v2, 0);
        }
        face.move_fitness(members, round);
        face
    }

    /// Hands the fitness of the face to its three vertices, for the round.
    pub fn move_fitness(&self, members: &mut Vec<Member>, round: usize)
        requires
            self.points.0 < old(members)@.len(),
            self.points.1 < old(members)@.len(),
            self.points.2 < old(members)@.len(),
            forall|j: int|
                0 <= j < old(members)@.len() ==> round <= (#[trigger] old(members)@[j])@.rounds.len(),
        ensures
            views(final(members)@) == paid(
                paid(
                    paid(views(old(members)@), self.points.0 as int, round as int, self.fitness),
                    self.points.1 as int,
                    round as int,
                    self.fitness,
                ),
                self.points.2 as int,
                round as int,
                self.fitness,
            ),
    {
        let ghost vs0 = views(members@);
        members[self.points.0].add_fitness(round, self.fitness);
        let ghost vs1 = views(members@);
        assert(vs1 =~= paid(vs0, self.points.0 as int, round as int, self.fitness));
        members[self.points.1].add_fitness(round, self.fitness);
        let ghost vs2 = views(members@);
        assert(vs2 =~= paid(vs1, self.points.1 as int, round as int, self.fitness));
        members[self.points.2].add_fitness(round, self.fitness);
        assert(views(members@) =~= paid(vs2, self.points.2 as int, round as int, self.fitness));
    }
}

/// The place of face `k` in a search that starts at face `start`: the
/// search looks at `start`, then in turns at the next face behind and the
/// next face before what it has seen.
pub open spec fn search_rank(start: int, k: int) -> int {
    if k <= start {
        2 * (start - k)
    } else {
        2 * (k - start) - 1
    }
}

/// Face `i` covers `p`, and no face that covers `p` comes earlier in the
/// search from `start`.
pub open spec fn nearest_hit(faces: Seq<Face>, start: int, p: Point, i: int) -> bool {
    &&& 0 <= i < faces.len()
    &&& covers(faces[i].triangle.corners(), p)
    &&& forall|k: int|
        0 <= k < faces.len() && covers((#[trigger] faces[k]).triangle.corners(), p) ==> search_rank(
            start,
            i,
        ) <= search_rank(start, k)
}

/// The face that a search from `start` finds for `p`, if any face covers `p`.
pub open spec fn found(faces: Seq<Face>, start: int, p: Point) -> Option<int> {
    if exists|i: int| nearest_hit(faces, start, p, i) {
        Some(choose|i: int| nearest_hit(faces, start, p, i))
    } else {
        None
    }
}

/// A search has one result.
pub proof fn lemma_nearest_hit_is_unique(faces: Seq<Face>, start: int, p: Point, i: int, j: int)
    requires
        nearest_hit(faces, start, p, i),
        nearest_hit(faces, start, p, j),
    ensures
        i == j,
{
    assert(search_rank(start, i) <= search_rank(start, j));
    assert(search_rank(start, j) <= search_rank(start, i));
}

/// Finds the face that covers a pixel, starting from the face that was
/// found last: the pixels of a scan line mostly lie in the same face or in
/// one close by.
pub struct FaceFinder<'a> {
    faces: &'a Vec<Face>,
    last_index: usize,
}

impl<'a> FaceFinder<'a> {
    #[verifier::type_invariant]
    spec fn inv(self) -> bool {
        self.last_index == 0 || self.last_index < self.faces@.len()
    }

    /// The faces that are searched.
    pub closed spec fn faces(self) -> Seq<Face> {
        self.faces@
    }

    /// The face that the next search starts from.
    pub closed spec fn position(self) -> int {
        self.last_index as int
    }

    /// A finder that starts its first search from the first face.
    pub fn new(faces: &'a Vec<Face>) -> (finder: FaceFinder<'a>)
        ensures
            finder.faces() == faces@,
            finder.position() == 0,
    {
        FaceFinder { faces, last_index: 0 }
    }

    /// The face that covers the pixel `(x, y)`: of the faces that do, the one
    /// that the search reaches first. The next search starts from it. Where
    /// no face covers the pixel there is none, and the next search starts
    /// where this one did.
    pub fn find(&mut self, x: i32, y: i32) -> (hit: Option<usize>)
        ensures
            final(self).faces() == old(self).faces(),
            match hit {
                Some(i) => nearest_hit(old(self).faces(), old(self).position(), Point(x, y), i as int)
                    && final(self).position() == i,
                None => final(self).position() == old(self).position() && forall|k: int|
                    0 <= k < old(self).faces().len() ==> !covers(
                        (#[trigger] old(self).faces()[k]).triangle.corners(),
                        Point(x, y),
                    ),
            },
            match hit {
                Some(i) => found(old(self).faces(), old(self).position(), Point(x, y)) == Some(
                    i as int,
                ),
                None => found(old(self).faces(), old(self).position(), Point(x, y)) is None,
            },
    {
        proof {
            use_type_invariant(&*self);
        }
        let start = self.last_index;
        let end = self.faces.len();
        let point = Point(x, y);
        let above: usize = if start < end {
            end - 1 - start
        } else {
            0
        };
        let ghost all = self.faces@;
        let mut t: usize = 0;
        while t <= start || t < above
            invariant
                all == self.faces@,
                end == all.len(),
                start == self.last_index,
                start == 0 || start < end,
                above == if start < end {
                    end - 1 - start
                } else {
                    0
                },
                *self == *old(self),
                point == Point(x, y),
                forall|k: int|
                    0 <= k < all.len() && search_rank(start as int, k) < 2 * t ==> !covers(
                        (#[trigger] all[k]).triangle.corners(),
                        point,
                    ),
            decreases start + above + 1 - t,
        {
            if t <= start {
                let i = start - t;
                if i < end {
                    if self.faces[i].triangle.contains(point) {
                        self.last_index = i;
                        proof {
                            assert(search_rank(start as int, i as int) == 2 * t);
                            assert(nearest_hit(all, start as int, point, i as int));
                            let w = choose|w: int| nearest_hit(all, start as int, point, w);
                            lemma_nearest_hit_is_unique(all, start as int, point, i as int, w);
                        }
                        return Some(i);
                    }
                }
            }
            if t < above {
                let j = start + 1 + t;
                if self.faces[j].triangle.contains(point) {
                    self.last_index = j;
                    proof {
                        assert(search_rank(start as int, j as int) == 2 * t + 1);
                        assert forall|k: int|
                            0 <= k < all.len() && covers(
                                (#[trigger] all[k]).triangle.corners(),
                                point,
                            ) implies search_rank(start as int, j as int) <= search_rank(
                            start as int,
                            k,
                        ) by {
                            if search_rank(start as int, k) == 2 * t {
                                assert(k == start - t);
                            }
                        }
                        assert(nearest_hit(all, start as int, point, j as int));
                        let w = choose|w: int| nearest_hit(all, start as int, point, w);
                        lemma_nearest_hit_is_unique(all, start as int, point, j as int, w);
                    }
                    return Some(j);
                }
            }
            proof {
                assert forall|k: int|
                    0 <= k < all.len() && search_rank(start as int, k) < 2 * (t + 1) implies !covers(
                    (#[trigger] all[k]).triangle.corners(),
                    point,
                ) by {
                    if search_rank(start as int, k) == 2 * t {
                        assert(k == start - t);
                    } else if search_rank(start as int, k) == 2 * t + 1 {
                        assert(k == start + 1 + t);
                    }
                }
            }
            t = t + 1;
        }
        proof {
            assert forall|k: int| 0 <= k < all.len() implies !covers(
                (#[trigger] all[k]).triangle.corners(),
                point,
            ) by {
                assert(search_rank(start as int, k) < 2 * t);
            }
        }
        None
    }
}

} // verus!
