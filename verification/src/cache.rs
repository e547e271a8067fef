use vstd::prelude::*;
use std::collections::HashMap;
use crate::pixel_group::Group;
use crate::point::{pack, packed, Point};

verus! {

broadcast use vstd::std_specs::hash::group_hash_axioms;

/// `a` stands before `b`: it lies further left, or as far left and higher up.
pub open spec fn precedes(a: Point, b: Point) -> bool {
    a.0 < b.0 || (a.0 == b.0 && a.1 < b.1)
}

/// The three points in ascending order.
pub open spec fn canonical(a: Point, b: Point, c: Point) -> (Point, Point, Point) {
    if precedes(b, a) {
        if precedes(c, b) {
            (c, b, a)
        } else if precedes(c, a) {
            (b, c, a)
        } else {
            (b, a, c)
        }
    } else {
        if precedes(c, a) {
            (c, a, b)
        } else if precedes(c, b) {
            (a, c, b)
        } else {
            (a, b, c)
        }
    }
}

/// The key of a triangle does not depend on the order of its corners.
pub proof fn lemma_canonical_ignores_order(a: Point, b: Point, c: Point)
    ensures
        canonical(a, c, b) == canonical(a, b, c),
        canonical(b, a, c) == canonical(a, b, c),
        canonical(b, c, a) == canonical(a, b, c),
        canonical(c, a, b) == canonical(a, b, c),
        canonical(c, b, a) == canonical(a, b, c),
{
}

/// A key holds the three points that it was made of, none before one that
/// precedes it.
pub proof fn lemma_canonical_is_sorted(a: Point, b: Point, c: Point)
    ensures
        ({
            let k = canonical(a, b, c);
            &&& !precedes(k.1, k.0)
            &&& !precedes(k.2, k.1)
            &&& (k == (a, b, c) || k == (a, c, b) || k == (b, a, c) || k == (b, c, a) || k == (
                c,
                a,
                b,
            ) || k == (c, b, a))
        }),
{
}

/// Once a group is kept for a triangle, it is found under every order of the
/// corners, so a second request for it is answered from the cache.
pub proof fn lemma_kept_under_every_order(
    kept: Map<(Point, Point, Point), Group>,
    group: Group,
    a: Point,
    b: Point,
    c: Point,
)
    ensures
        ({
            let after = kept.insert(canonical(a, b, c), group);
            &&& after.contains_key(canonical(a, c, b)) && after[canonical(a, c, b)] == group
            &&& after.contains_key(canonical(b, a, c)) && after[canonical(b, a, c)] == group
            &&& after.contains_key(canonical(b, c, a)) && after[canonical(b, c, a)] == group
            &&& after.contains_key(canonical(c, a, b)) && after[canonical(c, a, b)] == group
            &&& after.contains_key(canonical(c, b, a)) && after[canonical(c, b, a)] == group
            &&& after.contains_key(canonical(a, b, c)) && after[canonical(a, b, c)] == group
        }),
{
    lemma_canonical_ignores_order(a, b, c);
}

spec fn upper(k: (Point, Point, Point)) -> u128 {
    (packed(k.0) * 0x1_0000_0000_0000_0000 + packed(k.1)) as u128
}

spec fn lower(k: (Point, Point, Point)) -> u64 {
    packed(k.2) as u64
}

proof fn lemma_packing_is_exact(j: (Point, Point, Point), k: (Point, Point, Point))
    requires
        upper(j) == upper(k),
        lower(j) == lower(k),
    ensures
        j == k,
{
    assert(0 <= packed(j.0) < 0x1_0000_0000_0000_0000);
    assert(0 <= packed(j.1) < 0x1_0000_0000_0000_0000);
    assert(0 <= packed(k.0) < 0x1_0000_0000_0000_0000);
    assert(0 <= packed(k.1) < 0x1_0000_0000_0000_0000);
    assert(packed(j.0) == packed(k.0) && packed(j.1) == packed(k.1));
    assert(packed(j.2) == packed(k.2));
}

fn is_before(a: Point, b: Point) -> (r: bool)
    ensures
        r == precedes(a, b),
{
    a.0 < b.0 || (a.0 == b.0 && a.1 < b.1)
}

fn sort_corners(a: Point, b: Point, c: Point) -> (k: (Point, Point, Point))
    ensures
        k == canonical(a, b, c),
{
    if is_before(b, a) {
        if is_before(c, b) {
            (c, b, a)
        } else if is_before(c, a) {
            (b, c, a)
        } else {
            (b, a, c)
        }
    } else {
        if is_before(c, a) {
            (c, a, b)
        } else if is_before(c, b) {
            (a, c, b)
        } else {
            (a, b, c)
        }
    }
}

/// What was worked out for triangles before, by their corners. The order of
/// the corners does not matter.
pub struct Cache {
    store: HashMap<u128, HashMap<u64, Group>>,
}

impl Cache {
    /// The groups that the cache holds, each under the key of its triangle.
    pub closed spec fn view(&self) -> Map<(Point, Point, Point), Group> {
        Map::new(
            |k: (Point, Point, Point)|
                self.store@.contains_key(upper(k)) && self.store@[upper(k)]@.contains_key(lower(k)),
            |k: (Point, Point, Point)| self.store@[upper(k)]@[lower(k)],
        )
    }

    /// A cache that holds nothing.
    pub fn new() -> (cache: Cache)
        ensures
            cache@ == Map::<(Point, Point, Point), Group>::empty(),
    {
        let cache = Cache { store: HashMap::new() };
        assert(cache@ =~= Map::<(Point, Point, Point), Group>::empty());
        cache
    }

    /// The group that is kept for the triangle, if there is one.
    pub fn get(&self, p1: Point, p2: Point, p3: Point) -> (found: Option<Group>)
        ensures
            found == if self@.contains_key(canonical(p1, p2, p3)) {
                Some(self@[canonical(p1, p2, p3)])
            } else {
                None
            },
    {
        let key = sort_corners(p1, p2, p3);
        let hi: u128 = pack(key.0) as u128 * 0x1_0000_0000_0000_0000 + pack(key.1) as u128;
        let lo: u64 = pack(key.2);
        match self.store.get(&hi) {
            Some(inner) => match inner.get(&lo) {
                Some(group) => Some(*group),
                None => None,
            },
            None => None,
        }
    }

    /// The group of the triangle over the three corners: the one that the
    /// cache holds for them, in whatever order they were given before, and
    /// else the one that `f` works out, which the cache then keeps. `f` is
    /// called only where the cache holds nothing for the triangle.
    pub fn insert<F: FnOnce() -> Group>(&mut self, p1: Point, p2: Point, p3: Point, f: F) -> (group:
        Group)
        requires
            !old(self)@.contains_key(canonical(p1, p2, p3)) ==> f.requires(()),
        ensures
            ({
                let key = canonical(p1, p2, p3);
                if old(self)@.contains_key(key) {
                    group == old(self)@[key] && final(self)@ == old(self)@
                } else {
                    f.ensures((), group) && final(self)@ == old(self)@.insert(key, group)
                }
            }),
    {
        match self.get(p1, p2, p3) {
            Some(group) => group,
            None => {
                let group = f();
                let key = sort_corners(p1, p2, p3);
                let hi: u128 = pack(key.0) as u128 * 0x1_0000_0000_0000_0000 + pack(key.1) as u128;
                let lo: u64 = pack(key.2);
                let mut inner = match self.store.remove(&hi) {
                    Some(inner) => inner,
                    None => HashMap::new(),
                };
                inner.insert(lo, group);
                self.store.insert(hi, inner);
                proof {
                    assert forall|k: (Point, Point, Point)|
                        upper(k) == hi && lower(k) == lo implies k == key by {
                        lemma_packing_is_exact(k, key);
                    }
                    assert(self@ =~= old(self)@.insert(key, group));
                }
                group
            },
        }
    }
}

} // verus!
