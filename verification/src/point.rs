use vstd::prelude::*;

verus! {

/// A position on the pixel lattice: `Point(x, y)`.
#[derive(Clone, Copy, Debug, PartialEq, Eq, Structural)]
pub struct Point(pub i32, pub i32);

/// One coordinate after a move by `delta` inside `[0, max]`.
///
/// A coordinate that sits exactly at `0` or at `max` is pinned and stays where
/// it is; any other coordinate is moved and then clamped.
pub open spec fn mutate_axis(v: int, delta: int, max: int) -> int {
    if v == 0 || v == max {
        v
    } else if v + delta > max {
        max
    } else if v + delta < 0 {
        0
    } else {
        v + delta
    }
}

/// The point reached from `p` by the move `delta` inside `[0, width] x [0, height]`.
pub open spec fn mutated(p: Point, delta: Point, dimensions: (i32, i32)) -> Point {
    Point(
        mutate_axis(p.0 as int, delta.0 as int, dimensions.0 as int) as i32,
        mutate_axis(p.1 as int, delta.1 as int, dimensions.1 as int) as i32,
    )
}

fn mutate_coordinate(v: i32, delta: i32, max: i32) -> (r: i32)
    ensures
        r == mutate_axis(v as int, delta as int, max as int),
{
    if v == 0 || v == max {
        v
    } else {
        let moved: i64 = v as i64 + delta as i64;
        if moved > max as i64 {
            max
        } else if moved < 0 {
            0
        } else {
            moved as i32
        }
    }
}

/// The two coordinates of a point in one number. No two points share one.
pub open spec fn packed(p: Point) -> int {
    (p.0 + 0x8000_0000) * 0x1_0000_0000 + (p.1 + 0x8000_0000)
}

/// Packs the two coordinates of a point into one number.
pub fn pack(p: Point) -> (v: u64)
    ensures
        v == packed(p),
{
    let x: u64 = (p.0 as i64 + 0x8000_0000) as u64;
    let y: u64 = (p.1 as i64 + 0x8000_0000) as u64;
    x * 0x1_0000_0000 + y
}

/// Points that are packed into the same number are the same point.
pub proof fn lemma_packed_is_exact(p: Point, q: Point)
    requires
        packed(p) == packed(q),
    ensures
        p == q,
{
}

impl Point {
    /// The point at column `x` and row `y`.
    pub fn new(x: i32, y: i32) -> (p: Point)
        ensures
            p == Point(x, y),
    {
        Point(x, y)
    }

    /// The point at the coordinates of a pair.
    pub fn from(xy: (i32, i32)) -> (p: Point)
        ensures
            p == Point(xy.0, xy.1),
    {
        Point(xy.0, xy.1)
    }

    /// The coordinates as a pair.
    pub fn values(&self) -> (xy: (i32, i32))
        ensures
            xy == (self.0, self.1),
    {
        (self.0, self.1)
    }

    /// Moves the point by `delta`, keeps it inside the picture and returns the
    /// new position.
    ///
    /// Each axis is treated on its own: a coordinate at `0` or at the far
    /// border is pinned, every other coordinate is shifted and clamped to
    /// `[0, dimension]`.
    pub fn mutate(&mut self, delta: Point, dimensions: (i32, i32)) -> (moved: Point)
        ensures
            moved == mutated(*old(self), delta, dimensions),
            *final(self) == moved,
            0 <= dimensions.0 ==> 0 <= moved.0 <= dimensions.0,
            0 <= dimensions.1 ==> 0 <= moved.1 <= dimensions.1,
            old(self).0 == 0 || old(self).0 == dimensions.0 ==> moved.0 == old(self).0,
            old(self).1 == 0 || old(self).1 == dimensions.1 ==> moved.1 == old(self).1,
    {
        let x = mutate_coordinate(self.0, delta.0, dimensions.0);
        let y = mutate_coordinate(self.1, delta.1, dimensions.1);
        self.0 = x;
        self.1 = y;
        *self
    }
}

/// A move never leaves the picture: whatever the start and the step, each
/// coordinate of the result lies in `[0, dimension]`.
pub proof fn lemma_mutated_in_bounds(p: Point, delta: Point, dimensions: (i32, i32))
    requires
        0 <= dimensions.0,
        0 <= dimensions.1,
    ensures
        0 <= mutated(p, delta, dimensions).0 <= dimensions.0,
        0 <= mutated(p, delta, dimensions).1 <= dimensions.1,
{
}

/// A coordinate on the border of the picture does not move along its axis.
pub proof fn lemma_mutated_pins_border(p: Point, delta: Point, dimensions: (i32, i32))
    ensures
        p.0 == 0 || p.0 == dimensions.0 ==> mutated(p, delta, dimensions).0 == p.0,
        p.1 == 0 || p.1 == dimensions.1 ==> mutated(p, delta, dimensions).1 == p.1,
{
}

} // verus!
