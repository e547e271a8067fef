use vstd::prelude::*;
use crate::point::Point;

verus! {

/// The determinant of the two plane vectors `(ax, ay)` and `(bx, by)`.
pub open spec fn cross(ax: int, ay: int, bx: int, by: int) -> int {
    ax * by - ay * bx
}

/// The largest of three numbers.
pub open spec fn max3(a: int, b: int, c: int) -> int {
    if a >= b && a >= c {
        a
    } else if b >= a && b >= c {
        b
    } else {
        c
    }
}

/// The least of three numbers.
pub open spec fn min3(a: int, b: int, c: int) -> int {
    if a <= b && a <= c {
        a
    } else if b <= a && b <= c {
        b
    } else {
        c
    }
}

/// `v` lies between `a` and `b`, whichever of the two is smaller.
pub open spec fn within_span(v: int, a: int, b: int) -> bool {
    (a <= v && v <= b) || (b <= v && v <= a)
}

/// The three corners with the largest `y` first. Corners of equal `y` keep
/// the order in which they were given.
pub open spec fn order_by_height(a: Point, b: Point, c: Point) -> (Point, Point, Point) {
    if b.1 > a.1 {
        if c.1 > a.1 {
            if c.1 > b.1 {
                (c, b, a)
            } else {
                (b, c, a)
            }
        } else {
            (b, a, c)
        }
    } else {
        if c.1 > b.1 {
            if c.1 > a.1 {
                (c, a, b)
            } else {
                (a, c, b)
            }
        } else {
            (a, b, c)
        }
    }
}

/// Two of the corners lie on the line `x = 0`.
pub open spec fn has_side_on_left_border(v: (Point, Point, Point)) -> bool {
    (v.0.0 == 0 && v.1.0 == 0) || (v.0.0 == 0 && v.2.0 == 0) || (v.1.0 == 0 && v.2.0 == 0)
}

/// Two of the corners lie on the line `y = 0`.
pub open spec fn has_side_on_top_border(v: (Point, Point, Point)) -> bool {
    (v.0.1 == 0 && v.1.1 == 0) || (v.0.1 == 0 && v.2.1 == 0) || (v.1.1 == 0 && v.2.1 == 0)
}

/// `p` lies on the line `x = 0`, between two corners that lie on that line.
pub open spec fn on_left_border_side(v: (Point, Point, Point), p: Point) -> bool {
    p.0 == 0 && {
        ||| (v.0.0 == 0 && v.1.0 == 0 && within_span(p.1 as int, v.0.1 as int, v.1.1 as int))
        ||| (v.0.0 == 0 && v.2.0 == 0 && within_span(p.1 as int, v.0.1 as int, v.2.1 as int))
        ||| (v.1.0 == 0 && v.2.0 == 0 && within_span(p.1 as int, v.1.1 as int, v.2.1 as int))
    }
}

/// `p` lies on the line `y = 0`, between two corners that lie on that line.
pub open spec fn on_top_border_side(v: (Point, Point, Point), p: Point) -> bool {
    p.1 == 0 && {
        ||| (v.0.1 == 0 && v.1.1 == 0 && within_span(p.0 as int, v.0.0 as int, v.1.0 as int))
        ||| (v.0.1 == 0 && v.2.1 == 0 && within_span(p.0 as int, v.0.0 as int, v.2.0 as int))
        ||| (v.1.1 == 0 && v.2.1 == 0 && within_span(p.0 as int, v.1.0 as int, v.2.0 as int))
    }
}

/// `p` is one of the corners.
pub open spec fn is_corner(v: (Point, Point, Point), p: Point) -> bool {
    p == v.0 || p == v.1 || p == v.2
}

/// Twice the signed area spanned by the corners, taken from the first corner:
/// the determinant of the edge to the third corner and the edge to the second.
pub open spec fn span_det(v: (Point, Point, Point)) -> int {
    cross(v.2.0 - v.0.0, v.2.1 - v.0.1, v.1.0 - v.0.0, v.1.1 - v.0.1)
}

/// The numerator of the barycentric weight of the third corner for `p`.
pub open spec fn weight_u(v: (Point, Point, Point), p: Point) -> int {
    cross(p.0 - v.0.0, p.1 - v.0.1, v.1.0 - v.0.0, v.1.1 - v.0.1)
}

/// The numerator of the barycentric weight of the second corner for `p`.
pub open spec fn weight_v(v: (Point, Point, Point), p: Point) -> int {
    cross(v.2.0 - v.0.0, v.2.1 - v.0.1, p.0 - v.0.0, p.1 - v.0.1)
}

/// The barycentric test. With `d = span_det`, the point is
/// `v.0 + u * (v.2 - v.0) + w * (v.1 - v.0)` for `u = weight_u / d` and
/// `w = weight_v / d`, and it lies in the triangle when `u >= 0`, `w >= 0`
/// and `u + w <= 1`. A triangle without area contains no point by this test.
pub open spec fn barycentric_inside(v: (Point, Point, Point), p: Point) -> bool {
    let d = span_det(v);
    let u = weight_u(v, p);
    let w = weight_v(v, p);
    (d > 0 && u >= 0 && w >= 0 && u + w <= d) || (d < 0 && u <= 0 && w <= 0 && u + w >= d)
}

/// Whether the triangle with corners `v` covers the lattice point `p`.
///
/// The tests are made in a fixed order: a point beyond both upper bounds of
/// the corners is rejected; a point on a side that runs along `x = 0` or
/// `y = 0` is accepted; a corner is accepted; everything else is decided by
/// the barycentric test.
pub open spec fn covers(v: (Point, Point, Point), p: Point) -> bool {
    if p.0 > max3(v.0.0 as int, v.1.0 as int, v.2.0 as int) && p.1 > max3(
        v.0.1 as int,
        v.1.1 as int,
        v.2.1 as int,
    ) {
        false
    } else if on_left_border_side(v, p) {
        true
    } else if on_top_border_side(v, p) {
        true
    } else if is_corner(v, p) {
        true
    } else {
        barycentric_inside(v, p)
    }
}

fn max_of(a: i32, b: i32, c: i32) -> (m: i32)
    ensures
        m == max3(a as int, b as int, c as int),
{
    if a >= b && a >= c {
        a
    } else if b >= a && b >= c {
        b
    } else {
        c
    }
}

fn min_of(a: i32, b: i32, c: i32) -> (m: i32)
    ensures
        m == min3(a as int, b as int, c as int),
{
    if a <= b && a <= c {
        a
    } else if b <= a && b <= c {
        b
    } else {
        c
    }
}

fn det(ax: i64, ay: i64, bx: i64, by: i64) -> (d: i128)
    requires
        -0x1_0000_0000 < ax < 0x1_0000_0000,
        -0x1_0000_0000 < ay < 0x1_0000_0000,
        -0x1_0000_0000 < bx < 0x1_0000_0000,
        -0x1_0000_0000 < by < 0x1_0000_0000,
    ensures
        d == cross(ax as int, ay as int, bx as int, by as int),
        -0x2_0000_0000_0000_0000 < d < 0x2_0000_0000_0000_0000,
{
    assert(-0x1_0000_0000_0000_0000 < ax * by < 0x1_0000_0000_0000_0000) by (nonlinear_arith)
        requires
            -0x1_0000_0000 < ax < 0x1_0000_0000,
            -0x1_0000_0000 < by < 0x1_0000_0000,
    ;
    assert(-0x1_0000_0000_0000_0000 < ay * bx < 0x1_0000_0000_0000_0000) by (nonlinear_arith)
        requires
            -0x1_0000_0000 < ay < 0x1_0000_0000,
            -0x1_0000_0000 < bx < 0x1_0000_0000,
    ;
    (ax as i128) * (by as i128) - (ay as i128) * (bx as i128)
}

fn within(v: i32, a: i32, b: i32) -> (r: bool)
    ensures
        r == within_span(v as int, a as int, b as int),
{
    (a <= v && v <= b) || (b <= v && v <= a)
}

/// A triangle on the pixel lattice, with what its containment test needs
/// worked out once: the upper bounds of its corners and whether one of its
/// sides runs along `x = 0` or along `y = 0`.
#[derive(Clone, Copy, Debug)]
pub struct Triangle {
    vertices: (Point, Point, Point),
    max: Point,
    is_vertical: bool,
    is_horizontal: bool,
}

impl Triangle {
    #[verifier::type_invariant]
    spec fn inv(self) -> bool {
        &&& self.max.0 == max3(
            self.vertices.0.0 as int,
            self.vertices.1.0 as int,
            self.vertices.2.0 as int,
        )
        &&& self.max.1 == max3(
            self.vertices.0.1 as int,
            self.vertices.1.1 as int,
            self.vertices.2.1 as int,
        )
        &&& self.is_vertical == has_side_on_left_border(self.vertices)
        &&& self.is_horizontal == has_side_on_top_border(self.vertices)
    }

    /// The corners of the triangle, in the order in which it keeps them.
    pub closed spec fn corners(self) -> (Point, Point, Point) {
        self.vertices
    }

    /// The smallest lattice box around the triangle: `(left, top, right, bottom)`.
    pub open spec fn bounds(self) -> (int, int, int, int) {
        let v = self.corners();
        (
            min3(v.0.0 as int, v.1.0 as int, v.2.0 as int),
            min3(v.0.1 as int, v.1.1 as int, v.2.1 as int),
            max3(v.0.0 as int, v.1.0 as int, v.2.0 as int),
            max3(v.0.1 as int, v.1.1 as int, v.2.1 as int),
        )
    }

    /// Builds the triangle over three corners. The corners are kept with the
    /// largest `y` first.
    pub fn new(a: Point, b: Point, c: Point) -> (t: Triangle)
        ensures
            t.corners() == order_by_height(a, b, c),
    {
        let mut p1 = a;
        let mut p2 = b;
        let mut p3 = c;
        if p2.1 > p1.1 {
            let tmp = p1;
            p1 = p2;
            p2 = tmp;
        }
        if p3.1 > p2.1 {
            let tmp = p2;
            p2 = p3;
            p3 = tmp;
            if p2.1 > p1.1 {
                let tmp = p1;
                p1 = p2;
                p2 = tmp;
            }
        }
        let max = Point(max_of(p1.0, p2.0, p3.0), max_of(p1.1, p2.1, p3.1));
        let vertical0 = (p1.0 == 0 && p2.0 == 0) || (p1.0 == 0 && p3.0 == 0) || (p2.0 == 0 && p3.0
            == 0);
        let horizontal0 = (p1.1 == 0 && p2.1 == 0) || (p1.1 == 0 && p3.1 == 0) || (p2.1 == 0 && p3.1
            == 0);
        Triangle { vertices: (p1, p2, p3), max, is_vertical: vertical0, is_horizontal: horizontal0 }
    }

    /// The corners of the triangle, the one with the largest `y` first.
    pub fn vertices(&self) -> (v: (Point, Point, Point))
        ensures
            v == self.corners(),
    {
        self.vertices
    }

    /// Whether the triangle covers the lattice point `p`.
    pub fn contains(&self, p: Point) -> (inside: bool)
        ensures
            inside == covers(self.corners(), p),
    {
        proof {
            use_type_invariant(self);
        }
        let x = p.0;
        let y = p.1;
        let (v0, v1, v2) = self.vertices;
        if x > self.max.0 && y > self.max.1 {
            return false;
        }
        if self.is_vertical && x == 0 {
            if (v0.0 == 0 && v1.0 == 0 && within(y, v0.1, v1.1)) || (v0.0 == 0 && v2.0 == 0
                && within(y, v0.1, v2.1)) || (v1.0 == 0 && v2.0 == 0 && within(y, v1.1, v2.1)) {
                return true;
            }
        }
        if self.is_horizontal && y == 0 {
            if (v0.1 == 0 && v1.1 == 0 && within(x, v0.0, v1.0)) || (v0.1 == 0 && v2.1 == 0
                && within(x, v0.0, v2.0)) || (v1.1 == 0 && v2.1 == 0 && within(x, v1.0, v2.0)) {
                return true;
            }
        }
        if x == v0.0 && y == v0.1 {
            return true;
        }
        if x == v1.0 && y == v1.1 {
            return true;
        }
        if x == v2.0 && y == v2.1 {
            return true;
        }
        let e0x: i64 = v2.0 as i64 - v0.0 as i64;
        let e0y: i64 = v2.1 as i64 - v0.1 as i64;
        let e1x: i64 = v1.0 as i64 - v0.0 as i64;
        let e1y: i64 = v1.1 as i64 - v0.1 as i64;
        let e2x: i64 = x as i64 - v0.0 as i64;
        let e2y: i64 = y as i64 - v0.1 as i64;
        let d = det(e0x, e0y, e1x, e1y);
        let u = det(e2x, e2y, e1x, e1y);
        let w = det(e0x, e0y, e2x, e2y);
        (d > 0 && u >= 0 && w >= 0 && u + w <= d) || (d < 0 && u <= 0 && w <= 0 && u + w >= d)
    }

    /// The signed area of the triangle over `a`, `b`, `c`, counted in halves
    /// of a lattice cell so that it is always whole. It is positive when the
    /// corners turn counter-clockwise in a frame whose `y` grows upwards.
    pub fn area(a: Point, b: Point, c: Point) -> (halves: i128)
        ensures
            halves == cross(b.0 - a.0, b.1 - a.1, c.0 - a.0, c.1 - a.1),
    {
        det(
            b.0 as i64 - a.0 as i64,
            b.1 as i64 - a.1 as i64,
            c.0 as i64 - a.0 as i64,
            c.1 as i64 - a.1 as i64,
        )
    }
}

/// The arrangement made by `order_by_height` holds the same three corners,
/// and their `y` does not grow from one to the next.
pub proof fn lemma_order_by_height(a: Point, b: Point, c: Point)
    ensures
        ({
            let v = order_by_height(a, b, c);
            &&& v.0.1 >= v.1.1 >= v.2.1
            &&& (v == (a, b, c) || v == (a, c, b) || v == (b, a, c) || v == (b, c, a) || v == (
                c,
                a,
                b,
            ) || v == (c, b, a))
        }),
{
}

/// The weights of the barycentric test do describe the point: scaled by the
/// determinant of the triangle, the way from the first corner to `p` is
/// `weight_u` times the edge to the third corner plus `weight_v` times the
/// edge to the second.
pub proof fn lemma_weights_describe_point(v: (Point, Point, Point), p: Point)
    ensures
        span_det(v) * (p.0 - v.0.0) == weight_u(v, p) * (v.2.0 - v.0.0) + weight_v(v, p) * (v.1.0
            - v.0.0),
        span_det(v) * (p.1 - v.0.1) == weight_u(v, p) * (v.2.1 - v.0.1) + weight_v(v, p) * (v.1.1
            - v.0.1),
{
    let e0x = v.2.0 - v.0.0;
    let e0y = v.2.1 - v.0.1;
    let e1x = v.1.0 - v.0.0;
    let e1y = v.1.1 - v.0.1;
    let e2x = p.0 - v.0.0;
    let e2y = p.1 - v.0.1;
    assert((e0x * e1y - e0y * e1x) * e2x == (e2x * e1y - e2y * e1x) * e0x + (e0x * e2y - e0y * e2x)
        * e1x) by (nonlinear_arith);
    assert((e0x * e1y - e0y * e1x) * e2y == (e2x * e1y - e2y * e1x) * e0y + (e0x * e2y - e0y * e2x)
        * e1y) by (nonlinear_arith);
}

/// A weighted mean of three values, with weights that are not negative and
/// add up to `d > 0`, lies between the least and the largest of them.
proof fn lemma_mean_is_bounded(d: int, u: int, w: int, e0: int, e1: int, e2: int, lo: int, hi: int)
    requires
        d > 0,
        u >= 0,
        w >= 0,
        u + w <= d,
        d * e2 == u * e0 + w * e1,
        lo <= 0 <= hi,
        lo <= e0 <= hi,
        lo <= e1 <= hi,
    ensures
        lo <= e2 <= hi,
{
    assert(u * e0 <= u * hi && u * lo <= u * e0) by (nonlinear_arith)
        requires
            u >= 0,
            lo <= e0 <= hi,
    ;
    assert(w * e1 <= w * hi && w * lo <= w * e1) by (nonlinear_arith)
        requires
            w >= 0,
            lo <= e1 <= hi,
    ;
    assert(u * hi + w * hi <= d * hi && d * lo <= u * lo + w * lo) by (nonlinear_arith)
        requires
            u + w <= d,
            u >= 0,
            w >= 0,
            lo <= 0 <= hi,
    ;
    assert(d * lo <= d * e2 <= d * hi);
    assert(lo <= e2 <= hi) by (nonlinear_arith)
        requires
            d > 0,
            d * lo <= d * e2 <= d * hi,
    ;
}

/// A point that passes the barycentric test lies in the bounding box of the
/// corners.
pub proof fn lemma_inside_is_within_box(v: (Point, Point, Point), p: Point)
    requires
        barycentric_inside(v, p),
    ensures
        min3(v.0.0 as int, v.1.0 as int, v.2.0 as int) <= p.0 <= max3(
            v.0.0 as int,
            v.1.0 as int,
            v.2.0 as int,
        ),
        min3(v.0.1 as int, v.1.1 as int, v.2.1 as int) <= p.1 <= max3(
            v.0.1 as int,
            v.1.1 as int,
            v.2.1 as int,
        ),
{
    lemma_weights_describe_point(v, p);
    let d = span_det(v);
    let u = weight_u(v, p);
    let w = weight_v(v, p);
    let lox = min3(v.0.0 as int, v.1.0 as int, v.2.0 as int) - v.0.0;
    let hix = max3(v.0.0 as int, v.1.0 as int, v.2.0 as int) - v.0.0;
    let loy = min3(v.0.1 as int, v.1.1 as int, v.2.1 as int) - v.0.1;
    let hiy = max3(v.0.1 as int, v.1.1 as int, v.2.1 as int) - v.0.1;
    if d > 0 {
        lemma_mean_is_bounded(d, u, w, v.2.0 - v.0.0, v.1.0 - v.0.0, p.0 - v.0.0, lox, hix);
        lemma_mean_is_bounded(d, u, w, v.2.1 - v.0.1, v.1.1 - v.0.1, p.1 - v.0.1, loy, hiy);
    } else {
        assert((-d) * (p.0 - v.0.0) == (-u) * (v.2.0 - v.0.0) + (-w) * (v.1.0 - v.0.0))
            by (nonlinear_arith)
            requires
                d * (p.0 - v.0.0) == u * (v.2.0 - v.0.0) + w * (v.1.0 - v.0.0),
        ;
        assert((-d) * (p.1 - v.0.1) == (-u) * (v.2.1 - v.0.1) + (-w) * (v.1.1 - v.0.1))
            by (nonlinear_arith)
            requires
                d * (p.1 - v.0.1) == u * (v.2.1 - v.0.1) + w * (v.1.1 - v.0.1),
        ;
        lemma_mean_is_bounded(-d, -u, -w, v.2.0 - v.0.0, v.1.0 - v.0.0, p.0 - v.0.0, lox, hix);
        lemma_mean_is_bounded(-d, -u, -w, v.2.1 - v.0.1, v.1.1 - v.0.1, p.1 - v.0.1, loy, hiy);
    }
}

/// Every corner of a triangle is covered by it.
pub proof fn lemma_corner_is_covered(v: (Point, Point, Point), p: Point)
    requires
        is_corner(v, p),
    ensures
        covers(v, p),
{
}

/// A point outside the bounding box of the corners is not covered.
pub proof fn lemma_outside_box_not_covered(v: (Point, Point, Point), p: Point)
    requires
        p.0 < min3(v.0.0 as int, v.1.0 as int, v.2.0 as int) || p.0 > max3(
            v.0.0 as int,
            v.1.0 as int,
            v.2.0 as int,
        ) || p.1 < min3(v.0.1 as int, v.1.1 as int, v.2.1 as int) || p.1 > max3(
            v.0.1 as int,
            v.1.1 as int,
            v.2.1 as int,
        ),
    ensures
        !covers(v, p),
{
    if barycentric_inside(v, p) {
        lemma_inside_is_within_box(v, p);
    }
}

/// A point that passes the barycentric test is covered: none of the earlier
/// tests turns it away.
pub proof fn lemma_inside_is_covered(v: (Point, Point, Point), p: Point)
    requires
        barycentric_inside(v, p),
    ensures
        covers(v, p),
{
    lemma_inside_is_within_box(v, p);
}

/// A triangle with area covers its centroid, wherever the centroid is a
/// lattice point.
pub proof fn lemma_centroid_is_covered(v: (Point, Point, Point), p: Point)
    requires
        span_det(v) != 0,
        3 * p.0 == v.0.0 + v.1.0 + v.2.0,
        3 * p.1 == v.0.1 + v.1.1 + v.2.1,
    ensures
        covers(v, p),
{
    let e0x = v.2.0 - v.0.0;
    let e0y = v.2.1 - v.0.1;
    let e1x = v.1.0 - v.0.0;
    let e1y = v.1.1 - v.0.1;
    let e2x = p.0 - v.0.0;
    let e2y = p.1 - v.0.1;
    assert(3 * e2x == e0x + e1x);
    assert(3 * e2y == e0y + e1y);
    assert(3 * (e2x * e1y - e2y * e1x) == e0x * e1y - e0y * e1x) by (nonlinear_arith)
        requires
            3 * e2x == e0x + e1x,
            3 * e2y == e0y + e1y,
    ;
    assert(3 * (e0x * e2y - e0y * e2x) == e0x * e1y - e0y * e1x) by (nonlinear_arith)
        requires
            3 * e2x == e0x + e1x,
            3 * e2y == e0y + e1y,
    ;
    assert(barycentric_inside(v, p));
    lemma_inside_is_covered(v, p);
}

/// The dot product of the two plane vectors `(ax, ay)` and `(bx, by)`.
pub open spec fn dot(ax: int, ay: int, bx: int, by: int) -> int {
    ax * bx + ay * by
}

proof fn lemma_swap_factors(a: int, b: int, c: int, d: int)
    ensures
        (a * b) * (c * d) == (a * d) * (c * b),
        (a * b) * (c * d) == (a * c) * (b * d),
{
    assert((a * b) * (c * d) == (a * d) * (c * b)) by (nonlinear_arith);
    assert((a * b) * (c * d) == (a * c) * (b * d)) by (nonlinear_arith);
}

proof fn lemma_expand_product(a: int, b: int, c: int, d: int)
    by (nonlinear_arith)
    ensures
        (a + b) * (c + d) == a * c + a * d + b * c + b * d,
{
}

proof fn lemma_negated_products(a: int, b: int, c: int, d: int)
    by (nonlinear_arith)
    ensures
        a * (-d) == -(a * d),
        (-b) * c == -(b * c),
        (-b) * (-d) == b * d,
{
}

/// For plane vectors `a`, `b`, `c`, `d`:
/// `(a.c) * (b.d) - (a.d) * (b.c) == (a x b) * (c x d)`.
proof fn lemma_dots_and_crosses(
    a1: int,
    a2: int,
    b1: int,
    b2: int,
    c1: int,
    c2: int,
    d1: int,
    d2: int,
)
    ensures
        dot(a1, a2, c1, c2) * dot(b1, b2, d1, d2) - dot(a1, a2, d1, d2) * dot(b1, b2, c1, c2)
            == cross(a1, a2, b1, b2) * cross(c1, c2, d1, d2),
{
    let ac1 = a1 * c1;
    let ac2 = a2 * c2;
    let bd1 = b1 * d1;
    let bd2 = b2 * d2;
    let ad1 = a1 * d1;
    let ad2 = a2 * d2;
    let bc1 = b1 * c1;
    let bc2 = b2 * c2;
    let ab12 = a1 * b2;
    let ab21 = a2 * b1;
    let cd12 = c1 * d2;
    let cd21 = c2 * d1;
    lemma_expand_product(ac1, ac2, bd1, bd2);
    lemma_expand_product(ad1, ad2, bc1, bc2);
    lemma_expand_product(ab12, -ab21, cd12, -cd21);
    lemma_negated_products(ab12, ab21, cd12, cd21);
    lemma_swap_factors(a1, c1, b1, d1);
    assert(ac1 * bd1 == ad1 * bc1);
    lemma_swap_factors(a2, c2, b2, d2);
    assert(ac2 * bd2 == ad2 * bc2);
    lemma_swap_factors(a1, c1, b2, d2);
    lemma_swap_factors(a1, b2, c1, d2);
    assert(ac1 * bd2 == ab12 * cd12);
    lemma_swap_factors(a2, c2, b1, d1);
    lemma_swap_factors(a2, b1, c2, d1);
    assert(ac2 * bd1 == ab21 * cd21);
    lemma_swap_factors(a1, d1, b2, c2);
    lemma_swap_factors(a1, b2, d1, c2);
    assert(d1 * c2 == c2 * d1) by (nonlinear_arith);
    assert(ad1 * bc2 == ab12 * cd21);
    lemma_swap_factors(a2, d2, b1, c1);
    lemma_swap_factors(a2, b1, d2, c1);
    assert(d2 * c1 == c1 * d2) by (nonlinear_arith);
    assert(ad2 * bc1 == ab21 * cd12);
}

/// The barycentric test in its form with dot products. With `e0`, `e1` the
/// edges from the first corner to the third and to the second, and `e2` the
/// way to `p`, the weights are
/// `(e1.e1 * e0.e2 - e0.e1 * e1.e2) / (e0.e0 * e1.e1 - e0.e1 * e0.e1)` and
/// `(e0.e0 * e1.e2 - e0.e1 * e0.e2) / (e0.e0 * e1.e1 - e0.e1 * e0.e1)`;
/// the test above decides the same.
pub proof fn lemma_dot_product_form(v: (Point, Point, Point), p: Point)
    ensures
        ({
            let e0x = v.2.0 - v.0.0;
            let e0y = v.2.1 - v.0.1;
            let e1x = v.1.0 - v.0.0;
            let e1y = v.1.1 - v.0.1;
            let e2x = p.0 - v.0.0;
            let e2y = p.1 - v.0.1;
            let d00 = dot(e0x, e0y, e0x, e0y);
            let d01 = dot(e0x, e0y, e1x, e1y);
            let d02 = dot(e0x, e0y, e2x, e2y);
            let d11 = dot(e1x, e1y, e1x, e1y);
            let d12 = dot(e1x, e1y, e2x, e2y);
            let denom = d00 * d11 - d01 * d01;
            let u = d11 * d02 - d01 * d12;
            let w = d00 * d12 - d01 * d02;
            barycentric_inside(v, p) <==> (denom != 0 && u >= 0 && w >= 0 && u + w <= denom)
        }),
{
    let e0x = v.2.0 - v.0.0;
    let e0y = v.2.1 - v.0.1;
    let e1x = v.1.0 - v.0.0;
    let e1y = v.1.1 - v.0.1;
    let e2x = p.0 - v.0.0;
    let e2y = p.1 - v.0.1;
    let d = e0x * e1y - e0y * e1x;
    let cu = e2x * e1y - e2y * e1x;
    let cw = e0x * e2y - e0y * e2x;
    lemma_dots_and_crosses(e0x, e0y, e1x, e1y, e0x, e0y, e1x, e1y);
    lemma_dots_and_crosses(e1x, e1y, e0x, e0y, e1x, e1y, e2x, e2y);
    lemma_dots_and_crosses(e0x, e0y, e1x, e1y, e0x, e0y, e2x, e2y);
    assert((e1x * e0y - e1y * e0x) * (e1x * e2y - e1y * e2x) == d * cu) by (nonlinear_arith)
        requires
            d == e0x * e1y - e0y * e1x,
            cu == e2x * e1y - e2y * e1x,
    ;
    assert(dot(e0x, e0y, e1x, e1y) == dot(e1x, e1y, e0x, e0y)) by (nonlinear_arith);
    assert(d * cu + d * cw == d * (cu + cw)) by (nonlinear_arith);
    assert(d != 0 <==> d * d != 0) by (nonlinear_arith);
    assert(d > 0 ==> (cu >= 0 <==> d * cu >= 0)) by (nonlinear_arith);
    assert(d > 0 ==> (cw >= 0 <==> d * cw >= 0)) by (nonlinear_arith);
    assert(d > 0 ==> (cu + cw <= d <==> d * (cu + cw) <= d * d)) by (nonlinear_arith);
    assert(d < 0 ==> (cu <= 0 <==> d * cu >= 0)) by (nonlinear_arith);
    assert(d < 0 ==> (cw <= 0 <==> d * cw >= 0)) by (nonlinear_arith);
    assert(d < 0 ==> (cu + cw >= d <==> d * (cu + cw) <= d * d)) by (nonlinear_arith);
}

/// The lattice points that a scan of the box `[left, right) x [top, bottom)`
/// reaches after the cell `(x, y)` and that the triangle with corners `v`
/// covers. The scan runs along each row from left to right, and through the
/// rows from top to bottom.
pub open spec fn scan_after(
    v: (Point, Point, Point),
    left: int,
    top: int,
    right: int,
    bottom: int,
    x: int,
    y: int,
) -> Seq<Point>
    decreases bottom - y, right - x,
{
    if !(x < right && y < bottom) {
        Seq::empty()
    } else if x + 1 < right {
        let rest = scan_after(v, left, top, right, bottom, x + 1, y);
        if covers(v, Point((x + 1) as i32, y as i32)) {
            seq![Point((x + 1) as i32, y as i32)] + rest
        } else {
            rest
        }
    } else if y + 1 < bottom && left < right {
        let rest = scan_after(v, left, top, right, bottom, left, y + 1);
        if covers(v, Point(left as i32, (y + 1) as i32)) {
            seq![Point(left as i32, (y + 1) as i32)] + rest
        } else {
            rest
        }
    } else {
        Seq::empty()
    }
}

/// The lattice points of the triangle with corners `v`, in the order of a
/// scan: the covered cells of the box from the least to the largest
/// coordinates of the corners, the largest ones left out, row by row. The
/// scan starts behind the first cell of the box.
pub open spec fn lattice_of(v: (Point, Point, Point)) -> Seq<Point> {
    let left = min3(v.0.0 as int, v.1.0 as int, v.2.0 as int);
    let top = min3(v.0.1 as int, v.1.1 as int, v.2.1 as int);
    let right = max3(v.0.0 as int, v.1.0 as int, v.2.0 as int);
    let bottom = max3(v.0.1 as int, v.1.1 as int, v.2.1 as int);
    scan_after(v, left, top, right, bottom, left, top)
}

impl Triangle {
    /// The lattice points of the triangle in the order in which `iter` hands
    /// them out.
    pub open spec fn lattice_points(self) -> Seq<Point> {
        lattice_of(self.corners())
    }

    /// A walk over the lattice points of the triangle.
    pub fn iter(&self) -> (it: PointIterator<'_>)
        ensures
            it.remaining() == self.lattice_points(),
    {
        PointIterator::new(self)
    }
}

/// A walk over the lattice points of a triangle.
pub struct PointIterator<'a> {
    triangle: &'a Triangle,
    left: i32,
    right: i32,
    top: i32,
    bottom: i32,
    x: i32,
    y: i32,
}

impl<'a> PointIterator<'a> {
    #[verifier::type_invariant]
    spec fn inv(self) -> bool {
        &&& self.left <= self.x
        &&& self.top <= self.y
        &&& self.x < self.right || self.x == self.left
    }

    /// The points that are still to come, in their order.
    pub closed spec fn remaining(self) -> Seq<Point> {
        scan_after(
            self.triangle.corners(),
            self.left as int,
            self.top as int,
            self.right as int,
            self.bottom as int,
            self.x as int,
            self.y as int,
        )
    }

    fn new(t: &'a Triangle) -> (it: PointIterator<'a>)
        ensures
            it.remaining() == t.lattice_points(),
    {
        let (p1, p2, p3) = t.vertices();
        let left = min_of(p1.0, p2.0, p3.0);
        let right = max_of(p1.0, p2.0, p3.0);
        let top = min_of(p1.1, p2.1, p3.1);
        let bottom = max_of(p1.1, p2.1, p3.1);
        PointIterator { triangle: t, left, right, top, bottom, x: left, y: top }
    }

    /// Hands out the next lattice point of the triangle, or `None` when the
    /// walk is over. After `None` the walk stays over.
    pub fn next(&mut self) -> (item: Option<Point>)
        ensures
            match item {
                Some(p) => old(self).remaining().len() > 0 && p == old(self).remaining()[0]
                    && final(self).remaining() == old(self).remaining().skip(1),
                None => old(self).remaining().len() == 0 && final(self).remaining().len() == 0,
            },
    {
        proof {
            use_type_invariant(&*self);
        }
        while self.x < self.right && self.y < self.bottom
            invariant
                self.remaining() == old(self).remaining(),
                self.left <= self.x,
                self.top <= self.y,
                self.x < self.right || self.x == self.left,
                self.triangle == old(self).triangle,
            decreases self.bottom - self.y, self.right - self.x,
        {
            let ghost before = *self;
            if self.x + 1 >= self.right {
                if self.y + 1 >= self.bottom {
                    self.x = self.left;
                    self.y = self.bottom;
                    return None;
                }
                self.x = self.left;
                self.y = self.y + 1;
            } else {
                self.x = self.x + 1;
            }
            let point = Point(self.x, self.y);
            if self.triangle.contains(point) {
                proof {
                    let rest = self.remaining();
                    assert(before.remaining() == seq![point] + rest);
                    assert((seq![point] + rest).skip(1) =~= rest);
                }
                return Some(point);
            }
        }
        None
    }
}

/// The barycentric test does not depend on which two corners change places.
proof fn lemma_inside_ignores_swap(v: (Point, Point, Point), p: Point)
    ensures
        barycentric_inside((v.0, v.2, v.1), p) == barycentric_inside(v, p),
        barycentric_inside((v.1, v.0, v.2), p) == barycentric_inside(v, p),
{
    let e0x = v.2.0 - v.0.0;
    let e0y = v.2.1 - v.0.1;
    let e1x = v.1.0 - v.0.0;
    let e1y = v.1.1 - v.0.1;
    let e2x = p.0 - v.0.0;
    let e2y = p.1 - v.0.1;
    let d = e0x * e1y - e0y * e1x;
    let u = e2x * e1y - e2y * e1x;
    let w = e0x * e2y - e0y * e2x;
    // the second and the third corner change places
    assert(e1x * e0y - e1y * e0x == -d) by (nonlinear_arith)
        requires
            d == e0x * e1y - e0y * e1x,
    ;
    assert(e2x * e0y - e2y * e0x == -w) by (nonlinear_arith)
        requires
            w == e0x * e2y - e0y * e2x,
    ;
    assert(e1x * e2y - e1y * e2x == -u) by (nonlinear_arith)
        requires
            u == e2x * e1y - e2y * e1x,
    ;
    assert(span_det((v.0, v.2, v.1)) == -d);
    assert(weight_u((v.0, v.2, v.1), p) == -w);
    assert(weight_v((v.0, v.2, v.1), p) == -u);
    // the first and the second corner change places
    assert((e0x - e1x) * (-e1y) - (e0y - e1y) * (-e1x) == -d) by (nonlinear_arith)
        requires
            d == e0x * e1y - e0y * e1x,
    ;
    assert((e2x - e1x) * (-e1y) - (e2y - e1y) * (-e1x) == -u) by (nonlinear_arith)
        requires
            u == e2x * e1y - e2y * e1x,
    ;
    assert((e0x - e1x) * (e2y - e1y) - (e0y - e1y) * (e2x - e1x) == w + u - d)
        by (nonlinear_arith)
        requires
            d == e0x * e1y - e0y * e1x,
            u == e2x * e1y - e2y * e1x,
            w == e0x * e2y - e0y * e2x,
    ;
    assert(span_det((v.1, v.0, v.2)) == -d);
    assert(weight_u((v.1, v.0, v.2), p) == -u);
    assert(weight_v((v.1, v.0, v.2), p) == w + u - d);
}

/// A triangle covers the same points in whatever order its corners are
/// given.
pub proof fn lemma_covers_ignores_order(v: (Point, Point, Point), p: Point)
    ensures
        covers((v.0, v.2, v.1), p) == covers(v, p),
        covers((v.1, v.0, v.2), p) == covers(v, p),
        covers((v.1, v.2, v.0), p) == covers(v, p),
        covers((v.2, v.0, v.1), p) == covers(v, p),
        covers((v.2, v.1, v.0), p) == covers(v, p),
{
    lemma_inside_ignores_swap(v, p);
    lemma_inside_ignores_swap((v.0, v.2, v.1), p);
    lemma_inside_ignores_swap((v.1, v.0, v.2), p);
    lemma_inside_ignores_swap((v.2, v.0, v.1), p);
    lemma_inside_ignores_swap((v.1, v.2, v.0), p);
}

/// Two triangles that cover the same points give the same scan.
pub proof fn lemma_scan_of_equal_cover(
    v: (Point, Point, Point),
    w: (Point, Point, Point),
    left: int,
    top: int,
    right: int,
    bottom: int,
    x: int,
    y: int,
)
    requires
        forall|p: Point| covers(v, p) == #[trigger] covers(w, p),
    ensures
        scan_after(v, left, top, right, bottom, x, y) == scan_after(
            w,
            left,
            top,
            right,
            bottom,
            x,
            y,
        ),
    decreases bottom - y, right - x,
{
    if !(x < right && y < bottom) {
    } else if x + 1 < right {
        lemma_scan_of_equal_cover(v, w, left, top, right, bottom, x + 1, y);
        assert(covers(v, Point((x + 1) as i32, y as i32)) == covers(
            w,
            Point((x + 1) as i32, y as i32),
        ));
    } else if y + 1 < bottom && left < right {
        lemma_scan_of_equal_cover(v, w, left, top, right, bottom, left, y + 1);
        assert(covers(v, Point(left as i32, (y + 1) as i32)) == covers(
            w,
            Point(left as i32, (y + 1) as i32),
        ));
    }
}

/// The corners `w` are the corners `v` in some order.
pub open spec fn same_corners(v: (Point, Point, Point), w: (Point, Point, Point)) -> bool {
    w == v || w == (v.0, v.2, v.1) || w == (v.1, v.0, v.2) || w == (v.1, v.2, v.0) || w == (
        v.2,
        v.0,
        v.1,
    ) || w == (v.2, v.1, v.0)
}

/// A triangle has the same lattice points in whatever order its corners
/// are given.
pub proof fn lemma_lattice_ignores_order(v: (Point, Point, Point), w: (Point, Point, Point))
    requires
        same_corners(v, w),
    ensures
        lattice_of(w) == lattice_of(v),
{
    assert forall|p: Point| covers(v, p) == #[trigger] covers(w, p) by {
        lemma_covers_ignores_order(v, p);
    }
    let left = min3(v.0.0 as int, v.1.0 as int, v.2.0 as int);
    let top = min3(v.0.1 as int, v.1.1 as int, v.2.1 as int);
    let right = max3(v.0.0 as int, v.1.0 as int, v.2.0 as int);
    let bottom = max3(v.0.1 as int, v.1.1 as int, v.2.1 as int);
    lemma_scan_of_equal_cover(v, w, left, top, right, bottom, left, top);
}

/// `q` comes after the cell `(x, y)` in a scan: in a later row, or later
/// in the same row.
pub open spec fn comes_after(q: Point, x: int, y: int) -> bool {
    q.1 > y || (q.1 == y && q.0 > x)
}

/// A scan reaches the cells of the box behind its start that the triangle
/// covers, and no others.
pub proof fn lemma_scan_members(
    v: (Point, Point, Point),
    left: int,
    top: int,
    right: int,
    bottom: int,
    x: int,
    y: int,
    q: Point,
)
    requires
        i32::MIN <= left <= x < right <= i32::MAX,
        i32::MIN <= top <= y < bottom <= i32::MAX,
    ensures
        scan_after(v, left, top, right, bottom, x, y).contains(q) <==> (left <= q.0 < right && top
            <= q.1 < bottom && comes_after(q, x, y) && covers(v, q)),
    decreases bottom - y, right - x,
{
    let all = scan_after(v, left, top, right, bottom, x, y);
    if x + 1 < right {
        let next = Point((x + 1) as i32, y as i32);
        let rest = scan_after(v, left, top, right, bottom, x + 1, y);
        lemma_scan_members(v, left, top, right, bottom, x + 1, y, q);
        if covers(v, next) {
            assert(all == seq![next] + rest);
            assert((seq![next] + rest)[0] == next);
            if rest.contains(q) {
                let i = choose|i: int| 0 <= i < rest.len() && rest[i] == q;
                assert((seq![next] + rest)[i + 1] == q);
            }
            if all.contains(q) {
                let i = choose|i: int| 0 <= i < all.len() && all[i] == q;
                if i > 0 {
                    assert(rest[i - 1] == q);
                }
            }
        }
    } else if y + 1 < bottom {
        let next = Point(left as i32, (y + 1) as i32);
        let rest = scan_after(v, left, top, right, bottom, left, y + 1);
        lemma_scan_members(v, left, top, right, bottom, left, y + 1, q);
        if covers(v, next) {
            assert(all == seq![next] + rest);
            assert((seq![next] + rest)[0] == next);
            if rest.contains(q) {
                let i = choose|i: int| 0 <= i < rest.len() && rest[i] == q;
                assert((seq![next] + rest)[i + 1] == q);
            }
            if all.contains(q) {
                let i = choose|i: int| 0 <= i < all.len() && all[i] == q;
                if i > 0 {
                    assert(rest[i - 1] == q);
                }
            }
        }
    } else {
    }
}

/// The lattice points of a triangle are the cells that it covers in the
/// box from the least to the largest coordinates of its corners, the
/// largest ones left out, but for the first cell of the box.
pub proof fn lemma_lattice_members(v: (Point, Point, Point), q: Point)
    ensures
        lattice_of(v).contains(q) <==> (min3(v.0.0 as int, v.1.0 as int, v.2.0 as int) <= q.0
            < max3(v.0.0 as int, v.1.0 as int, v.2.0 as int) && min3(
            v.0.1 as int,
            v.1.1 as int,
            v.2.1 as int,
        ) <= q.1 < max3(v.0.1 as int, v.1.1 as int, v.2.1 as int) && !(q.0 == min3(
            v.0.0 as int,
            v.1.0 as int,
            v.2.0 as int,
        ) && q.1 == min3(v.0.1 as int, v.1.1 as int, v.2.1 as int)) && covers(v, q)),
{
    let left = min3(v.0.0 as int, v.1.0 as int, v.2.0 as int);
    let top = min3(v.0.1 as int, v.1.1 as int, v.2.1 as int);
    let right = max3(v.0.0 as int, v.1.0 as int, v.2.0 as int);
    let bottom = max3(v.0.1 as int, v.1.1 as int, v.2.1 as int);
    if left < right && top < bottom {
        lemma_scan_members(v, left, top, right, bottom, left, top, q);
    }
}

} // verus!
