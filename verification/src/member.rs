use vstd::prelude::*;
use crate::config::Config;
use crate::point::{mutated, Point};

verus! {

/// Where the position of a vertex comes from: it is the base position, or
/// the base position moved by a step.
#[derive(Clone, Copy, Debug, PartialEq, Eq, Structural)]
pub enum MemberType {
    Base,
    Mutation(Point),
}

/// What a vertex tried in one round: a position, where it comes from, and
/// the fitness that the faces at that position brought in.
#[derive(Clone, Copy, Debug)]
pub struct Variant {
    pub source: MemberType,
    pub point: Point,
    pub fitness: u64,
}

/// The sum of two fitness values, which stops at the largest value.
pub open spec fn fitness_sum(a: u64, b: u64) -> u64 {
    if a + b > u64::MAX {
        u64::MAX
    } else {
        (a + b) as u64
    }
}

/// A round was to the good when the vertex moved in it and did better there
/// than at its base position.
pub open spec fn beneficial(slot: Option<Variant>, base_fitness: u64) -> bool {
    slot matches Some(variant) && variant.source is Mutation && base_fitness < variant.fitness
}

/// The fitness of all the rounds that were to the good.
pub open spec fn beneficial_total(slots: Seq<Option<Variant>>, base_fitness: u64) -> int
    decreases slots.len(),
{
    if slots.len() == 0 {
        0
    } else {
        beneficial_total(slots.drop_last(), base_fitness) + if beneficial(
            slots.last(),
            base_fitness,
        ) {
            slots.last()->Some_0.fitness as int
        } else {
            0
        }
    }
}

/// The part `fitness / total` of the step `delta`, rounded towards zero.
pub open spec fn share_of_step(delta: int, fitness: int, total: int) -> int {
    if delta >= 0 {
        (delta * fitness) / total
    } else {
        -(((-delta) * fitness) / total)
    }
}

/// The position reached from `start` when every round that was to the good
/// pulls it by its step, weighted by the share of the round in `total`. The
/// rounds pull one after the other, and each pull is a move inside the
/// picture.
pub open spec fn pulled(
    slots: Seq<Option<Variant>>,
    base_fitness: u64,
    total: int,
    start: Point,
    dimensions: (i32, i32),
) -> Point
    decreases slots.len(),
{
    if slots.len() == 0 {
        start
    } else {
        let before = pulled(slots.drop_last(), base_fitness, total, start, dimensions);
        if beneficial(slots.last(), base_fitness) {
            let variant = slots.last()->Some_0;
            let delta = variant.source->Mutation_0;
            mutated(
                before,
                Point(
                    share_of_step(delta.0 as int, variant.fitness as int, total) as i32,
                    share_of_step(delta.1 as int, variant.fitness as int, total) as i32,
                ),
                dimensions,
            )
        } else {
            before
        }
    }
}

/// A vertex in terms of plain values.
pub struct MemberView {
    pub id: usize,
    pub source: MemberType,
    pub point: Point,
    /// What the vertex tried, round by round: the candidate of the round,
    /// or `None` for a round in which it stayed at its base position.
    pub rounds: Seq<Option<Variant>>,
    pub dimensions: (i32, i32),
    pub fitness: u64,
}

impl MemberView {
    /// The position of the vertex in round `index`. Round `0` is the base.
    pub open spec fn point_at(self, index: int) -> Point {
        if 0 < index <= self.rounds.len() && self.rounds[index - 1] is Some {
            self.rounds[index - 1]->Some_0.point
        } else {
            self.point
        }
    }

    /// The vertex after a new round: with `hit` it tries the position that
    /// the step `delta` takes it to from its base; without, it stays.
    pub open spec fn tried(self, hit: bool, delta: Point) -> MemberView {
        MemberView {
            rounds: self.rounds.push(
                if hit {
                    Some(
                        Variant {
                            source: MemberType::Mutation(delta),
                            point: mutated(self.point, delta, self.dimensions),
                            fitness: 0,
                        },
                    )
                } else {
                    None
                },
            ),
            ..self
        }
    }

    /// The position that the rounds to the good pull the base to.
    pub open spec fn merged_point(self) -> Point {
        pulled(
            self.rounds,
            self.fitness,
            beneficial_total(self.rounds, self.fitness),
            self.point,
            self.dimensions,
        )
    }

    /// The vertex after a last round for the merged position.
    pub open spec fn merged(self) -> MemberView {
        MemberView {
            rounds: self.rounds.push(
                Some(Variant { source: MemberType::Base, point: self.merged_point(), fitness: 0 }),
            ),
            ..self
        }
    }

    /// The vertex after `fitness` came in for round `index`: for the base in
    /// round `0`, for the candidate of the round otherwise. What comes in
    /// for a round in which the vertex stayed is dropped.
    pub open spec fn credited(self, index: int, fitness: u64) -> MemberView {
        if index == 0 {
            MemberView { fitness: fitness_sum(self.fitness, fitness), ..self }
        } else {
            match self.rounds[index - 1] {
                Some(variant) => MemberView {
                    rounds: self.rounds.update(
                        index - 1,
                        Some(
                            Variant {
                                source: variant.source,
                                point: variant.point,
                                fitness: fitness_sum(variant.fitness, fitness),
                            },
                        ),
                    ),
                    ..self
                },
                None => self,
            }
        }
    }
}

proof fn lemma_beneficial_total_bounds(slots: Seq<Option<Variant>>, base_fitness: u64)
    ensures
        0 <= beneficial_total(slots, base_fitness) <= slots.len() * u64::MAX,
        forall|i: int|
            0 <= i < slots.len() && beneficial(#[trigger] slots[i], base_fitness)
                ==> slots[i]->Some_0.fitness <= beneficial_total(slots, base_fitness),
    decreases slots.len(),
{
    if slots.len() > 0 {
        lemma_beneficial_total_bounds(slots.drop_last(), base_fitness);
        assert forall|i: int|
            0 <= i < slots.len() && beneficial(
                #[trigger] slots[i],
                base_fitness,
            ) implies slots[i]->Some_0.fitness <= beneficial_total(slots, base_fitness) by {
            if i < slots.len() - 1 {
                assert(slots.drop_last()[i] == slots[i]);
            }
        }
        assert(slots.len() * u64::MAX == (slots.len() - 1) * u64::MAX + u64::MAX)
            by (nonlinear_arith);
    }
}

proof fn lemma_share_is_no_longer_than_step(delta: int, fitness: int, total: int)
    requires
        0 <= fitness <= total,
        0 < total,
    ensures
        delta >= 0 ==> 0 <= share_of_step(delta, fitness, total) <= delta,
        delta < 0 ==> delta <= share_of_step(delta, fitness, total) <= 0,
{
    let m = if delta >= 0 {
        delta
    } else {
        -delta
    };
    assert(0 <= m * fitness <= m * total) by (nonlinear_arith)
        requires
            0 <= m,
            0 <= fitness <= total,
    ;
    vstd::arithmetic::div_mod::lemma_div_is_ordered(m * fitness, m * total, total);
    vstd::arithmetic::div_mod::lemma_div_is_ordered(0, m * fitness, total);
    vstd::arithmetic::div_mod::lemma_div_multiples_vanish(m, total);
    assert(m * total == total * m) by (nonlinear_arith);
}

/// `Rng::gen_ratio` on the generator of the thread: a trial that hits with
/// the odds `numerator` in `denominator`. Nothing is known of one outcome
/// but this: even odds of all always hit, odds of none never do.
#[verifier::external_body]
pub(crate) fn should_mutate(numerator: u32, denominator: u32) -> (hit: bool)
    requires
        denominator > 0,
        numerator <= denominator,
    ensures
        numerator == denominator ==> hit,
        numerator == 0 ==> !hit,
{
    rand::Rng::gen_ratio(&mut rand::thread_rng(), numerator, denominator)
}

fn add_saturating(a: u64, b: u64) -> (sum: u64)
    ensures
        sum == fitness_sum(a, b),
{
    a.saturating_add(b)
}

fn step_share(delta: i32, fitness: u64, total: u128) -> (share: i32)
    requires
        fitness <= total,
        0 < total,
    ensures
        share == share_of_step(delta as int, fitness as int, total as int),
{
    proof {
        lemma_share_is_no_longer_than_step(delta as int, fitness as int, total as int);
    }
    let magnitude: u128 = if delta >= 0 {
        delta as u128
    } else {
        (-(delta as i64)) as u128
    };
    assert(magnitude * fitness <= 0x8000_0000 * 0xffff_ffff_ffff_ffff) by (nonlinear_arith)
        requires
            0 <= magnitude <= 0x8000_0000,
            0 <= fitness <= 0xffff_ffff_ffff_ffff,
    ;
    let part: u128 = (magnitude * fitness as u128) / total;
    if delta >= 0 {
        part as i32
    } else {
        (-(part as i64)) as i32
    }
}

/// One vertex of the mesh as it evolves: its base position, what it tried
/// in each round, and the fitness that came in for each.
#[derive(Debug)]
pub struct Member {
    pub id: usize,
    pub source: MemberType,
    pub point: Point,
    pub mutations: Vec<Option<Variant>>,
    pub dimensions: (i32, i32),
    pub fitness: u64,
}

impl Member {
    /// The vertex in terms of plain values.
    pub open spec fn view(&self) -> MemberView {
        MemberView {
            id: self.id,
            source: self.source,
            point: self.point,
            rounds: self.mutations@,
            dimensions: self.dimensions,
            fitness: self.fitness,
        }
    }

    /// A vertex that has not tried anything yet. A base vertex stands at
    /// `point`; a vertex that is a mutation stands where the step takes it
    /// from `point`.
    pub fn new(id: usize, source: MemberType, point: (i32, i32), dimensions: (i32, i32)) -> (m:
        Member)
        ensures
            m@ == (MemberView {
                id,
                source,
                point: match source {
                    MemberType::Base => Point(point.0, point.1),
                    MemberType::Mutation(delta) => mutated(
                        Point(point.0, point.1),
                        delta,
                        dimensions,
                    ),
                },
                rounds: Seq::empty(),
                dimensions,
                fitness: 0,
            }),
    {
        let at = match source {
            MemberType::Base => Point::from(point),
            MemberType::Mutation(delta) => {
                let mut p = Point::from(point);
                p.mutate(delta, dimensions)
            },
        };
        Member { id, source, point: at, mutations: Vec::new(), dimensions, fitness: 0 }
    }

    /// The number of rounds so far.
    pub fn size(&self) -> (n: usize)
        ensures
            n == self@.rounds.len(),
    {
        self.mutations.len()
    }

    /// What the vertex tried in round `index`. There is nothing for round
    /// `0`, the base, nor for a round in which the vertex stayed.
    pub fn mutation(&self, index: usize) -> (slot: Option<Variant>)
        requires
            index <= self@.rounds.len(),
        ensures
            slot == if index == 0 {
                None
            } else {
                self@.rounds[index - 1]
            },
    {
        if index == 0 {
            None
        } else {
            self.mutations[index - 1]
        }
    }

    /// The position of the vertex in round `index`.
    pub fn point(&self, index: usize) -> (p: Point)
        requires
            index <= self@.rounds.len(),
        ensures
            p == self@.point_at(index as int),
    {
        match self.mutation(index) {
            Some(variant) => variant.point,
            None => self.point,
        }
    }

    /// The coordinates of the vertex in round `index`.
    pub fn values(&self, index: usize) -> (xy: (i32, i32))
        requires
            index <= self@.rounds.len(),
        ensures
            xy == (self@.point_at(index as int).0, self@.point_at(index as int).1),
    {
        self.point(index).values()
    }

    /// Opens a round. With `hit` the vertex tries the position that the step
    /// `delta` takes it to from its base; without, it stays. Returns the
    /// position of the vertex in the new round.
    pub fn mutate_with(&mut self, hit: bool, delta: Point) -> (at: Point)
        ensures
            final(self)@ == old(self)@.tried(hit, delta),
            at == final(self)@.point_at(final(self)@.rounds.len() as int),
    {
        if hit {
            let mut moved = self.point;
            moved.mutate(delta, self.dimensions);
            self.mutations.push(
                Some(Variant { source: MemberType::Mutation(delta), point: moved, fitness: 0 }),
            );
            moved
        } else {
            self.mutations.push(None);
            self.point
        }
    }

    /// Opens a round in which the vertex tries the step `delta` with the
    /// odds of the configuration, and stays at its base otherwise. Returns
    /// the position of the vertex in the new round.
    pub fn mutate(&mut self, delta: Point, config: &Config) -> (at: Point)
        requires
            config.wf(),
        ensures
            final(self)@ == old(self)@.tried(true, delta) || final(self)@ == old(self)@.tried(
                false,
                delta,
            ),
            config.mutation_odds.0 == config.mutation_odds.1 ==> final(self)@ == old(self)@.tried(
                true,
                delta,
            ),
            config.mutation_odds.0 == 0 ==> final(self)@ == old(self)@.tried(false, delta),
            at == final(self)@.point_at(final(self)@.rounds.len() as int),
    {
        let hit = should_mutate(config.mutation_odds.0, config.mutation_odds.1);
        self.mutate_with(hit, delta)
    }

    /// The position that the rounds to the good pull the base to.
    ///
    /// A round is to the good when the vertex moved in it and its fitness
    /// there is above the fitness of the base. Each such round pulls by its
    /// own step, weighted by its share in the fitness of all of them. With
    /// no round to the good the position is the base.
    pub fn merged_point(&self) -> (merged: Point)
        ensures
            merged == self@.merged_point(),
    {
        let base_fitness = self.fitness;
        let ghost slots = self.mutations@;
        let mut total: u128 = 0;
        let mut i: usize = 0;
        assert(slots.take(0) =~= Seq::<Option<Variant>>::empty());
        while i < self.mutations.len()
            invariant
                i <= slots.len(),
                slots == self.mutations@,
                total == beneficial_total(slots.take(i as int), base_fitness),
            decreases self.mutations.len() - i,
        {
            proof {
                lemma_beneficial_total_bounds(slots.take(i as int), base_fitness);
                assert(slots.take(i + 1).drop_last() =~= slots.take(i as int));
                assert(i * u64::MAX + u64::MAX <= usize::MAX * u64::MAX + u64::MAX)
                    by (nonlinear_arith)
                    requires
                        0 <= i <= usize::MAX,
                ;
            }
            if let Some(variant) = self.mutations[i] {
                if let MemberType::Mutation(_) = variant.source {
                    if base_fitness < variant.fitness {
                        total = total + variant.fitness as u128;
                    }
                }
            }
            i = i + 1;
        }
        assert(slots.take(slots.len() as int) =~= slots);
        let mut aggregate = self.point;
        let mut k: usize = 0;
        while k < self.mutations.len()
            invariant
                k <= slots.len(),
                slots == self.mutations@,
                total == beneficial_total(slots, base_fitness),
                aggregate == pulled(
                    slots.take(k as int),
                    base_fitness,
                    total as int,
                    self.point,
                    self.dimensions,
                ),
            decreases self.mutations.len() - k,
        {
            proof {
                lemma_beneficial_total_bounds(slots, base_fitness);
                assert(slots.take(k + 1).drop_last() =~= slots.take(k as int));
            }
            if let Some(variant) = self.mutations[k] {
                if let MemberType::Mutation(delta) = variant.source {
                    if base_fitness < variant.fitness {
                        assert(beneficial(slots[k as int], base_fitness));
                        let step = Point(
                            step_share(delta.0, variant.fitness, total),
                            step_share(delta.1, variant.fitness, total),
                        );
                        aggregate.mutate(step, self.dimensions);
                    }
                }
            }
            k = k + 1;
        }
        aggregate
    }

    /// Closes the rounds: works out the position that the rounds to the good
    /// pull the base to, opens a last round for it and returns it.
    pub fn merge_mutations_into_base(&mut self) -> (merged: Point)
        ensures
            merged == old(self)@.merged_point(),
            final(self)@ == old(self)@.merged(),
    {
        let merged = self.merged_point();
        self.mutations.push(Some(Variant { source: MemberType::Base, point: merged, fitness: 0 }));
        merged
    }

    /// Adds `fitness` to what came in for round `index`: for the base in
    /// round `0`, for the candidate of the round otherwise. What comes in
    /// for a round in which the vertex stayed is dropped.
    pub fn add_fitness(&mut self, index: usize, fitness: u64)
        requires
            index <= old(self)@.rounds.len(),
        ensures
            final(self)@ == old(self)@.credited(index as int, fitness),
    {
        if index == 0 {
            self.fitness = add_saturating(self.fitness, fitness);
        } else {
            match self.mutations[index - 1] {
                Some(variant) => {
                    self.mutations.set(
                        index - 1,
                        Some(
                            Variant {
                                source: variant.source,
                                point: variant.point,
                                fitness: add_saturating(variant.fitness, fitness),
                            },
                        ),
                    );
                },
                None => {},
            }
        }
    }
}

/// The merged position is the base or lies in the picture.
pub proof fn lemma_pulled_is_base_or_inside(
    slots: Seq<Option<Variant>>,
    base_fitness: u64,
    total: int,
    start: Point,
    dimensions: (i32, i32),
)
    requires
        0 <= dimensions.0,
        0 <= dimensions.1,
    ensures
        ({
            let p = pulled(slots, base_fitness, total, start, dimensions);
            p == start || (0 <= p.0 <= dimensions.0 && 0 <= p.1 <= dimensions.1)
        }),
    decreases slots.len(),
{
    if slots.len() > 0 {
        lemma_pulled_is_base_or_inside(slots.drop_last(), base_fitness, total, start, dimensions);
    }
}

/// Where no round was to the good, the merged position is the base.
pub proof fn lemma_nothing_to_the_good_keeps_base(
    slots: Seq<Option<Variant>>,
    base_fitness: u64,
    total: int,
    start: Point,
    dimensions: (i32, i32),
)
    requires
        forall|i: int| 0 <= i < slots.len() ==> !beneficial(#[trigger] slots[i], base_fitness),
    ensures
        pulled(slots, base_fitness, total, start, dimensions) == start,
    decreases slots.len(),
{
    if slots.len() > 0 {
        assert forall|i: int| 0 <= i < slots.drop_last().len() implies !beneficial(
            #[trigger] slots.drop_last()[i],
            base_fitness,
        ) by {
            assert(slots.drop_last()[i] == slots[i]);
        }
        lemma_nothing_to_the_good_keeps_base(
            slots.drop_last(),
            base_fitness,
            total,
            start,
            dimensions,
        );
        assert(!beneficial(slots[slots.len() - 1], base_fitness));
    }
}

} // verus!
