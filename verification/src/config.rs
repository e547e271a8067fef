use vstd::prelude::*;

verus! {

/// The tunable numbers of the engine.
#[derive(Clone, Copy, Debug)]
pub struct Config {
    /// The search starts from a grid of this many points on each axis.
    pub segments: u32,
    /// The number of generations of a search.
    pub generations: u32,
    /// The number of rounds in which the vertices of a generation try new
    /// positions.
    pub mutations_per_generation: u32,
    /// The odds that a vertex tries a new position in a round, as
    /// `(hits, out_of)`.
    pub mutation_odds: (u32, u32),
    /// The size of the steps that the vertices try: the deviation of the
    /// normal distribution that the steps are drawn from, in pixels.
    pub max_deviation: u32,
    /// A pixel joins a colour bin when its squared distance to the mean of
    /// the bin is below this.
    pub cluster_distance: u32,
    /// The share of all pixels, in hundredths, that the largest bin must
    /// hold to give the face its colour alone.
    pub min_dominant_percent: u32,
    /// A bin counts as substantial when it holds more than this share of all
    /// pixels, in hundredths.
    pub min_substantial_percent: u32,
    /// A group with fewer pixels than this has no fitness.
    pub min_total_pixels: u32,
}

impl Config {
    /// The shares are shares of a whole and the odds are odds.
    pub open spec fn wf(self) -> bool {
        &&& self.min_dominant_percent <= 100
        &&& self.min_substantial_percent <= 100
        &&& self.mutation_odds.1 > 0
        &&& self.mutation_odds.0 <= self.mutation_odds.1
    }

    /// The numbers that the engine was tuned with.
    pub open spec fn standard() -> Config {
        Config {
            segments: 35,
            generations: 20,
            mutations_per_generation: 20,
            mutation_odds: (3, 5),
            max_deviation: 10,
            cluster_distance: 150,
            min_dominant_percent: 95,
            min_substantial_percent: 1,
            min_total_pixels: 10,
        }
    }

    /// The numbers that the engine was tuned with.
    pub fn new() -> (c: Config)
        ensures
            c == Config::standard(),
            c.wf(),
    {
        Config {
            segments: 35,
            generations: 20,
            mutations_per_generation: 20,
            mutation_odds: (3, 5),
            max_deviation: 10,
            cluster_distance: 150,
            min_dominant_percent: 95,
            min_substantial_percent: 1,
            min_total_pixels: 10,
        }
    }

    /// Whether the shares are shares of a whole and the odds are odds.
    pub fn is_valid(&self) -> (ok: bool)
        ensures
            ok == self.wf(),
    {
        self.min_dominant_percent <= 100 && self.min_substantial_percent <= 100
            && self.mutation_odds.1 > 0 && self.mutation_odds.0 <= self.mutation_odds.1
    }
}

} // verus!
