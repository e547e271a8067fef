use vstd::prelude::*;
use crate::config::Config;

verus! {

/// A colour: red, green, blue.
pub type Color = (u8, u8, u8);

/// The colour of a group without pixels.
pub const NO_PIXELS: Color = (255, 0, 255);

/// The sums of the three channels over `s`.
pub open spec fn channel_sums(s: Seq<Color>) -> (int, int, int)
    decreases s.len(),
{
    if s.len() == 0 {
        (0, 0, 0)
    } else {
        let rest = channel_sums(s.drop_last());
        (rest.0 + s.last().0, rest.1 + s.last().1, rest.2 + s.last().2)
    }
}

/// The mean colour of `s`, each channel rounded down. `s` is not empty.
pub open spec fn mean_color(s: Seq<Color>) -> Color {
    let sums = channel_sums(s);
    let n = s.len() as int;
    ((sums.0 / n) as u8, (sums.1 / n) as u8, (sums.2 / n) as u8)
}

/// The squared distance between two colours.
pub open spec fn distance(a: Color, b: Color) -> int {
    (a.0 - b.0) * (a.0 - b.0) + (a.1 - b.1) * (a.1 - b.1) + (a.2 - b.2) * (a.2 - b.2)
}

/// The sum of the squared distances of the colours of `s` from `c`.
pub open spec fn spread(s: Seq<Color>, c: Color) -> int
    decreases s.len(),
{
    if s.len() == 0 {
        0
    } else {
        spread(s.drop_last(), c) + distance(c, s.last())
    }
}

/// The first bin at or behind `from` whose mean is nearer to `p` than
/// `threshold`, or the number of bins if there is none.
pub open spec fn first_near(bins: Seq<Seq<Color>>, p: Color, threshold: int, from: int) -> int
    decreases bins.len() - from,
{
    if from < 0 || from >= bins.len() {
        bins.len() as int
    } else if distance(mean_color(bins[from]), p) < threshold {
        from
    } else {
        first_near(bins, p, threshold, from + 1)
    }
}

/// The bins after `p` was put into the first bin near it, or into a new bin
/// of its own behind the others.
pub open spec fn place(bins: Seq<Seq<Color>>, p: Color, threshold: int) -> Seq<Seq<Color>> {
    let i = first_near(bins, p, threshold, 0);
    if i < bins.len() {
        bins.update(i, bins[i].push(p))
    } else {
        bins.push(seq![p])
    }
}

/// The bins that the pixels fall into when they are placed one after the
/// other. The bins stand in the order in which they were opened, and each
/// holds its pixels in the order in which they came.
pub open spec fn cluster(pixels: Seq<Color>, threshold: int) -> Seq<Seq<Color>>
    decreases pixels.len(),
{
    if pixels.len() == 0 {
        Seq::empty()
    } else {
        place(cluster(pixels.drop_last(), threshold), pixels.last(), threshold)
    }
}

proof fn lemma_channel_sums_bounds(s: Seq<Color>)
    ensures
        0 <= channel_sums(s).0 <= 255 * s.len(),
        0 <= channel_sums(s).1 <= 255 * s.len(),
        0 <= channel_sums(s).2 <= 255 * s.len(),
    decreases s.len(),
{
    if s.len() > 0 {
        lemma_channel_sums_bounds(s.drop_last());
    }
}

proof fn lemma_spread_bounds(s: Seq<Color>, c: Color)
    ensures
        0 <= spread(s, c) <= 195075 * s.len(),
    decreases s.len(),
{
    if s.len() > 0 {
        lemma_spread_bounds(s.drop_last(), c);
        lemma_distance_bounds(c, s.last());
    }
}

/// The squared distance of two colours is at most three times the square
/// of the largest channel.
pub proof fn lemma_distance_bounds(a: Color, b: Color)
    ensures
        0 <= distance(a, b) <= 195075,
{
    let x = a.0 - b.0;
    let y = a.1 - b.1;
    let z = a.2 - b.2;
    assert(0 <= x * x <= 65025) by (nonlinear_arith)
        requires
            -255 <= x <= 255,
    ;
    assert(0 <= y * y <= 65025) by (nonlinear_arith)
        requires
            -255 <= y <= 255,
    ;
    assert(0 <= z * z <= 65025) by (nonlinear_arith)
        requires
            -255 <= z <= 255,
    ;
}

/// Every bin of a clustering holds a pixel, and together the bins hold as
/// many pixels as were placed.
pub proof fn lemma_cluster_sizes(pixels: Seq<Color>, threshold: int)
    ensures
        forall|i: int| 0 <= i < cluster(pixels, threshold).len() ==> (#[trigger] cluster(
            pixels,
            threshold,
        )[i]).len() > 0,
        total_size(cluster(pixels, threshold)) == pixels.len(),
        pixels.len() > 0 ==> cluster(pixels, threshold).len() > 0,
        cluster(pixels, threshold).len() <= pixels.len(),
    decreases pixels.len(),
{
    if pixels.len() > 0 {
        let before = cluster(pixels.drop_last(), threshold);
        lemma_cluster_sizes(pixels.drop_last(), threshold);
        let p = pixels.last();
        let i = first_near(before, p, threshold, 0);
        lemma_first_near(before, p, threshold, 0);
        if i < before.len() {
            lemma_total_size_update(before, i, before[i].push(p));
        } else {
            assert(before.push(seq![p]).drop_last() =~= before);
        }
    }
}

proof fn lemma_first_near(bins: Seq<Seq<Color>>, p: Color, threshold: int, from: int)
    requires
        0 <= from <= bins.len(),
    ensures
        from <= first_near(bins, p, threshold, from) <= bins.len(),
        first_near(bins, p, threshold, from) < bins.len() ==> distance(
            mean_color(bins[first_near(bins, p, threshold, from)]),
            p,
        ) < threshold,
        forall|j: int|
            from <= j < first_near(bins, p, threshold, from) ==> distance(
                mean_color(#[trigger] bins[j]),
                p,
            ) >= threshold,
    decreases bins.len() - from,
{
    if from < bins.len() && !(distance(mean_color(bins[from]), p) < threshold) {
        lemma_first_near(bins, p, threshold, from + 1);
    }
}

/// The number of pixels in all the bins.
pub open spec fn total_size(bins: Seq<Seq<Color>>) -> int
    decreases bins.len(),
{
    if bins.len() == 0 {
        0
    } else {
        total_size(bins.drop_last()) + bins.last().len()
    }
}

proof fn lemma_total_size_update(bins: Seq<Seq<Color>>, i: int, b: Seq<Color>)
    requires
        0 <= i < bins.len(),
    ensures
        total_size(bins.update(i, b)) == total_size(bins) - bins[i].len() + b.len(),
    decreases bins.len(),
{
    if i == bins.len() - 1 {
        assert(bins.update(i, b).drop_last() =~= bins.drop_last());
    } else {
        lemma_total_size_update(bins.drop_last(), i, b);
        assert(bins.update(i, b).drop_last() =~= bins.drop_last().update(i, b));
    }
}

fn distance_between(a: Color, b: Color) -> (d: u32)
    ensures
        d == distance(a, b),
{
    proof {
        lemma_distance_bounds(a, b);
    }
    let x: i32 = a.0 as i32 - b.0 as i32;
    let y: i32 = a.1 as i32 - b.1 as i32;
    let z: i32 = a.2 as i32 - b.2 as i32;
    assert(0 <= x * x <= 65025) by (nonlinear_arith)
        requires
            -255 <= x <= 255,
    ;
    assert(0 <= y * y <= 65025) by (nonlinear_arith)
        requires
            -255 <= y <= 255,
    ;
    assert(0 <= z * z <= 65025) by (nonlinear_arith)
        requires
            -255 <= z <= 255,
    ;
    (x * x + y * y + z * z) as u32
}

/// A colour bin: pixels of nearly one colour, in the order in which they
/// came, with their channel sums and their mean.
struct GroupBin {
    sums: (u128, u128, u128),
    mean: Color,
    values: Vec<Color>,
}

impl GroupBin {
    spec fn wf(self) -> bool {
        &&& self.values@.len() > 0
        &&& self.sums.0 == channel_sums(self.values@).0
        &&& self.sums.1 == channel_sums(self.values@).1
        &&& self.sums.2 == channel_sums(self.values@).2
        &&& self.mean == mean_color(self.values@)
    }

    fn new(pixel: Color) -> (bin: GroupBin)
        ensures
            bin.wf(),
            bin.values@ == seq![pixel],
    {
        let mut values = Vec::new();
        values.push(pixel);
        proof {
            assert(values@ =~= seq![pixel]);
            assert(values@.drop_last() =~= Seq::<Color>::empty());
            assert(channel_sums(values@.drop_last()) == (0int, 0int, 0int));
            assert(channel_sums(values@) == (pixel.0 as int, pixel.1 as int, pixel.2 as int));
        }
        GroupBin { sums: (pixel.0 as u128, pixel.1 as u128, pixel.2 as u128), mean: pixel, values }
    }

    fn add(&mut self, pixel: Color)
        requires
            old(self).wf(),
        ensures
            final(self).wf(),
            final(self).values@ == old(self).values@.push(pixel),
    {
        let held = self.values.len();
        proof {
            lemma_channel_sums_bounds(self.values@);
            lemma_channel_sums_bounds(self.values@.push(pixel));
            assert(self.values@.push(pixel).drop_last() =~= self.values@);
            assert(self.sums.0 <= 255 * held);
        }
        let s0 = self.sums.0 + pixel.0 as u128;
        let s1 = self.sums.1 + pixel.1 as u128;
        let s2 = self.sums.2 + pixel.2 as u128;
        self.values.push(pixel);
        self.sums = (s0, s1, s2);
        let n = self.values.len() as u128;
        assert(s0 / n <= 255 && s1 / n <= 255 && s2 / n <= 255) by (nonlinear_arith)
            requires
                n > 0,
                s0 <= 255 * n,
                s1 <= 255 * n,
                s2 <= 255 * n,
        ;
        self.mean = ((s0 / n) as u8, (s1 / n) as u8, (s2 / n) as u8);
    }
}

/// What a vector of bins holds, bin by bin.
spec fn contents(bins: Seq<GroupBin>) -> Seq<Seq<Color>> {
    Seq::new(bins.len(), |i: int| bins[i].values@)
}

spec fn all_wf(bins: Seq<GroupBin>) -> bool {
    forall|i: int| 0 <= i < bins.len() ==> (#[trigger] bins[i]).wf()
}

/// Sorts the pixels into bins.
fn make_bins(pixels: &Vec<Color>, threshold: u32) -> (bins: Vec<GroupBin>)
    ensures
        all_wf(bins@),
        contents(bins@) == cluster(pixels@, threshold as int),
{
    let mut bins: Vec<GroupBin> = Vec::new();
    let mut k: usize = 0;
    assert(contents(bins@) =~= cluster(pixels@.take(0), threshold as int));
    while k < pixels.len()
        invariant
            k <= pixels.len(),
            all_wf(bins@),
            contents(bins@) == cluster(pixels@.take(k as int), threshold as int),
        decreases pixels.len() - k,
    {
        let pixel = pixels[k];
        let ghost before = contents(bins@);
        let mut j: usize = 0;
        let mut placed = false;
        while j < bins.len()
            invariant_except_break
                !placed,
                j <= bins.len(),
                bins@.len() == before.len(),
                contents(bins@) == before,
                first_near(before, pixel, threshold as int, 0) == first_near(
                    before,
                    pixel,
                    threshold as int,
                    j as int,
                ),
            invariant
                all_wf(bins@),
                k < pixels.len(),
                pixel == pixels@[k as int],
            ensures
                placed ==> contents(bins@) == place(before, pixel, threshold as int),
                !placed ==> contents(bins@) == before && first_near(
                    before,
                    pixel,
                    threshold as int,
                    0,
                ) == before.len(),
            decreases bins.len() - j,
        {
            assert(bins@[j as int].wf());
            assert(before[j as int] == bins@[j as int].values@);
            let dist = distance_between(bins[j].mean, pixel);
            if dist < threshold {
                bins[j].add(pixel);
                placed = true;
                proof {
                    assert(first_near(before, pixel, threshold as int, j as int) == j);
                    assert(contents(bins@) =~= before.update(
                        j as int,
                        before[j as int].push(pixel),
                    ));
                }
                break ;
            }
            j = j + 1;
        }
        if !placed {
            bins.push(GroupBin::new(pixel));
            proof {
                assert(contents(bins@) =~= before.push(seq![pixel]));
            }
        }
        proof {
            assert(pixels@.take(k + 1).drop_last() =~= pixels@.take(k as int));
            assert(pixels@.take(k + 1).last() == pixel);
        }
        k = k + 1;
    }
    assert(pixels@.take(pixels.len() as int) =~= pixels@);
    bins
}

/// The place of a bin of `size` pixels among bins in size order: at or
/// behind `from`, before the first bin that is not larger than it.
pub open spec fn slot_for(sorted: Seq<Seq<Color>>, size: int, from: int) -> int
    decreases sorted.len() - from,
{
    if from < 0 || from >= sorted.len() {
        sorted.len() as int
    } else if sorted[from].len() <= size {
        from
    } else {
        slot_for(sorted, size, from + 1)
    }
}

/// The bins with the largest first. Bins of equal size keep their order.
pub open spec fn by_size(bins: Seq<Seq<Color>>) -> Seq<Seq<Color>>
    decreases bins.len(),
{
    if bins.len() == 0 {
        Seq::empty()
    } else {
        let rest = by_size(bins.drop_first());
        rest.insert(slot_for(rest, bins.first().len() as int, 0), bins.first())
    }
}

proof fn lemma_slot_for(sorted: Seq<Seq<Color>>, size: int, from: int)
    requires
        0 <= from <= sorted.len(),
    ensures
        from <= slot_for(sorted, size, from) <= sorted.len(),
        slot_for(sorted, size, from) < sorted.len() ==> sorted[slot_for(sorted, size, from)].len()
            <= size,
        forall|j: int|
            from <= j < slot_for(sorted, size, from) ==> (#[trigger] sorted[j]).len() > size,
    decreases sorted.len() - from,
{
    if from < sorted.len() && !(sorted[from].len() <= size) {
        lemma_slot_for(sorted, size, from + 1);
    }
}

/// The bins laid end to end.
pub open spec fn joined(bins: Seq<Seq<Color>>) -> Seq<Color>
    decreases bins.len(),
{
    if bins.len() == 0 {
        Seq::empty()
    } else {
        joined(bins.drop_last()) + bins.last()
    }
}

proof fn lemma_joined_len(bins: Seq<Seq<Color>>)
    ensures
        joined(bins).len() == total_size(bins),
    decreases bins.len(),
{
    if bins.len() > 0 {
        lemma_joined_len(bins.drop_last());
    }
}

/// The bins up to the `b`th, laid end to end, are the beginning of all the
/// bins laid end to end.
proof fn lemma_joined_prefix(bins: Seq<Seq<Color>>, b: int)
    requires
        0 <= b <= bins.len(),
    ensures
        joined(bins.take(b)).len() <= joined(bins).len(),
        joined(bins.take(b)) == joined(bins).take(joined(bins.take(b)).len() as int),
    decreases bins.len() - b,
{
    if b == bins.len() {
        assert(bins.take(b) =~= bins);
        assert(joined(bins).take(joined(bins).len() as int) =~= joined(bins));
    } else {
        lemma_joined_prefix(bins, b + 1);
        assert(bins.take(b + 1).drop_last() =~= bins.take(b));
        let longer = joined(bins.take(b + 1));
        let shorter = joined(bins.take(b));
        assert(longer == shorter + bins[b]);
        assert(shorter =~= joined(bins).take(shorter.len() as int));
    }
}

/// One unit of fitness, as a fixed-point number.
pub const FITNESS_ONE: u64 = 1_000_000_000_000;

/// The number of bins that hold more than `floor` pixels.
pub open spec fn substantial(bins: Seq<Seq<Color>>, floor: int) -> int
    decreases bins.len(),
{
    if bins.len() == 0 {
        0
    } else {
        substantial(bins.drop_last(), floor) + if bins.last().len() > floor {
            1int
        } else {
            0int
        }
    }
}

/// A reward, but no more than one for each pixel.
pub open spec fn capped(reward: int, total: int) -> int {
    if reward > total {
        total
    } else {
        reward
    }
}

/// The reward for a single dominant bin. A group with one substantial bin
/// is paid one for each pixel. A group with several is paid the more, the
/// more of the pixels its largest bin holds, and never more than a group of
/// its size with one bin.
pub open spec fn size_reward(substantial_bins: int, largest: int, total: int) -> int {
    if substantial_bins == 0 {
        0
    } else if substantial_bins == 1 {
        total
    } else if 10 * largest > 9 * total {
        capped(100, total)
    } else if 4 * largest > 3 * total {
        capped(10, total)
    } else {
        capped(1, total)
    }
}

/// What the fitness is divided by for a spread of `d`: nothing for a spread
/// below ten, the cube of the spread from there on, and a million from a
/// spread of a hundred on. It never falls as the spread grows.
pub open spec fn distance_divisor(d: int) -> int {
    if d < 10 {
        1
    } else if d >= 100 {
        1_000_000
    } else {
        d * d * d
    }
}

/// The fitness for a reward, a number of substantial bins and a spread: the
/// reward over the square of the bins and over the divisor of the spread,
/// in units of `FITNESS_ONE`, rounded down and no more than a `u64` holds.
pub open spec fn scaled_fitness(reward: int, substantial_bins: int, d: int) -> int {
    if substantial_bins <= 0 {
        0
    } else {
        let q = (reward * FITNESS_ONE) / (substantial_bins * substantial_bins * distance_divisor(
            d,
        ));
        if q > u64::MAX {
            u64::MAX as int
        } else {
            q
        }
    }
}

/// The fitness of a group of `total` pixels in `bins`, given in size
/// order, whose colour has the spread `d`.
pub open spec fn fitness_of(bins: Seq<Seq<Color>>, total: int, d: int, config: Config) -> int {
    if total < config.min_total_pixels || bins.len() == 0 {
        0
    } else {
        let floor = (config.min_substantial_percent * total) / 100;
        let count = substantial(bins, floor);
        scaled_fitness(size_reward(count, bins[0].len() as int, total), count, d)
    }
}

/// The pixels that give a group its colour: those of the largest bin where
/// it holds the dominant share of all pixels, and else as many pixels as
/// that share, taken from the bins in size order.
pub open spec fn color_basis(bins: Seq<Seq<Color>>, total: int, config: Config) -> Seq<Color> {
    if 100 * bins[0].len() < config.min_dominant_percent * total {
        joined(bins).take((config.min_dominant_percent * total) / 100)
    } else {
        bins[0]
    }
}

/// The colour and the fitness of a face that covers `pixels`.
pub open spec fn group_of(pixels: Seq<Color>, config: Config) -> Group {
    if pixels.len() == 0 {
        Group { color: NO_PIXELS, fitness: 0 }
    } else {
        let bins = by_size(cluster(pixels, config.cluster_distance as int));
        let total = pixels.len() as int;
        let basis = color_basis(bins, total, config);
        let color = mean_color(basis);
        Group { color, fitness: fitness_of(bins, total, spread(basis, color), config) as u64 }
    }
}

/// The colour that stands for the pixels of a face, and how well it does.
#[derive(Clone, Copy, Debug, PartialEq, Eq)]
pub struct Group {
    pub color: Color,
    pub fitness: u64,
}

proof fn lemma_contents_drop_first(bins: Seq<GroupBin>)
    requires
        bins.len() > 0,
    ensures
        contents(bins).drop_first() == contents(bins.drop_first()),
        contents(bins).first() == bins.first().values@,
{
    assert(contents(bins).drop_first() =~= contents(bins.drop_first()));
}

/// Brings the bins into size order.
fn sort_bins(bins: Vec<GroupBin>) -> (sorted: Vec<GroupBin>)
    requires
        all_wf(bins@),
    ensures
        all_wf(sorted@),
        contents(sorted@) == by_size(contents(bins@)),
        sorted@.len() == bins@.len(),
{
    let ghost all = bins@;
    let mut bins = bins;
    let mut sorted: Vec<GroupBin> = Vec::new();
    proof {
        assert(all.skip(all.len() as int) =~= Seq::<GroupBin>::empty());
        assert(contents(sorted@) =~= by_size(contents(all.skip(all.len() as int))));
    }
    while bins.len() > 0
        invariant
            all_wf(bins@),
            all_wf(sorted@),
            bins@ == all.take(bins@.len() as int),
            bins@.len() <= all.len(),
            sorted@.len() == all.len() - bins@.len(),
            contents(sorted@) == by_size(contents(all.skip(bins@.len() as int))),
        decreases bins.len(),
    {
        let ghost n = bins@.len() as int;
        let ghost rest = contents(sorted@);
        let bin = bins.pop().unwrap();
        assert(bin == all[n - 1]);
        assert(bin.wf());
        let size = bin.values.len();
        let mut at: usize = 0;
        while at < sorted.len() && sorted[at].values.len() > size
            invariant
                at <= sorted.len(),
                rest == contents(sorted@),
                slot_for(rest, size as int, 0) == slot_for(rest, size as int, at as int),
            decreases sorted.len() - at,
        {
            assert(rest[at as int] == sorted@[at as int].values@);
            at = at + 1;
        }
        proof {
            if at < sorted.len() {
                assert(rest[at as int] == sorted@[at as int].values@);
            }
            assert(slot_for(rest, size as int, 0) == at);
        }
        sorted.insert(at, bin);
        proof {
            let tail = all.skip(n - 1);
            assert(tail.first() == bin);
            assert(tail.drop_first() =~= all.skip(n));
            lemma_contents_drop_first(tail);
            assert(contents(sorted@) =~= rest.insert(at as int, bin.values@));
            assert(bins@ =~= all.take(n - 1));
            assert forall|i: int| 0 <= i < sorted@.len() implies (#[trigger] sorted@[i]).wf() by {
                if i < at {
                } else if i == at {
                } else {
                }
            }
        }
    }
    proof {
        assert(all.skip(0) =~= all);
    }
    sorted
}

fn sum_colors(colors: &Vec<Color>) -> (sums: (u128, u128, u128))
    ensures
        sums.0 == channel_sums(colors@).0,
        sums.1 == channel_sums(colors@).1,
        sums.2 == channel_sums(colors@).2,
{
    let mut sums: (u128, u128, u128) = (0, 0, 0);
    let mut i: usize = 0;
    assert(colors@.take(0) =~= Seq::<Color>::empty());
    while i < colors.len()
        invariant
            i <= colors.len(),
            sums.0 == channel_sums(colors@.take(i as int)).0,
            sums.1 == channel_sums(colors@.take(i as int)).1,
            sums.2 == channel_sums(colors@.take(i as int)).2,
        decreases colors.len() - i,
    {
        proof {
            lemma_channel_sums_bounds(colors@.take(i as int));
            assert(colors@.take(i + 1).drop_last() =~= colors@.take(i as int));
        }
        let c = colors[i];
        sums = (sums.0 + c.0 as u128, sums.1 + c.1 as u128, sums.2 + c.2 as u128);
        i = i + 1;
    }
    assert(colors@.take(colors.len() as int) =~= colors@);
    sums
}

fn mean_of(colors: &Vec<Color>) -> (mean: Color)
    requires
        colors@.len() > 0,
    ensures
        mean == mean_color(colors@),
{
    let sums = sum_colors(colors);
    let n = colors.len() as u128;
    proof {
        lemma_channel_sums_bounds(colors@);
    }
    assert(sums.0 / n <= 255 && sums.1 / n <= 255 && sums.2 / n <= 255) by (nonlinear_arith)
        requires
            n > 0,
            sums.0 <= 255 * n,
            sums.1 <= 255 * n,
            sums.2 <= 255 * n,
    ;
    ((sums.0 / n) as u8, (sums.1 / n) as u8, (sums.2 / n) as u8)
}

fn spread_of(colors: &Vec<Color>, center: Color) -> (d: u128)
    ensures
        d == spread(colors@, center),
{
    let mut d: u128 = 0;
    let mut i: usize = 0;
    assert(colors@.take(0) =~= Seq::<Color>::empty());
    while i < colors.len()
        invariant
            i <= colors.len(),
            d == spread(colors@.take(i as int), center),
        decreases colors.len() - i,
    {
        proof {
            lemma_spread_bounds(colors@.take(i as int), center);
            assert(colors@.take(i + 1).drop_last() =~= colors@.take(i as int));
        }
        d = d + distance_between(center, colors[i]) as u128;
        i = i + 1;
    }
    assert(colors@.take(colors.len() as int) =~= colors@);
    d
}

/// The first `k` pixels of the bins laid end to end.
fn pool_of(bins: &Vec<GroupBin>, k: usize) -> (pool: Vec<Color>)
    requires
        k <= total_size(contents(bins@)),
    ensures
        pool@ == joined(contents(bins@)).take(k as int),
{
    let ghost all = contents(bins@);
    let mut pool: Vec<Color> = Vec::new();
    let mut b: usize = 0;
    proof {
        lemma_joined_len(all);
        assert(all.take(0) =~= Seq::<Seq<Color>>::empty());
        assert(joined(all).take(0) =~= Seq::<Color>::empty());
    }
    while b < bins.len() && pool.len() < k
        invariant
            b <= bins.len(),
            all == contents(bins@),
            pool@.len() <= k <= joined(all).len(),
            pool@.len() < k ==> pool@ == joined(all.take(b as int)),
            pool@.len() == k ==> pool@ == joined(all).take(k as int),
        decreases bins.len() - b,
    {
        let ghost before = joined(all.take(b as int));
        let ghost bin = all[b as int];
        proof {
            assert(bin == bins@[b as int].values@);
            assert(all.take(b + 1).drop_last() =~= all.take(b as int));
            lemma_joined_prefix(all, b + 1);
            assert(before + bin.take(0) =~= before);
        }
        let mut i: usize = 0;
        while i < bins[b].values.len() && pool.len() < k
            invariant
                b < bins.len(),
                i <= bin.len(),
                bin == bins@[b as int].values@,
                pool@.len() <= k <= joined(all).len(),
                pool@.len() < k ==> pool@ == before + bin.take(i as int),
                pool@.len() == k ==> pool@ == joined(all).take(k as int),
                joined(all.take(b + 1)) == before + bin,
                (before + bin).len() <= joined(all).len(),
                before + bin == joined(all).take((before + bin).len() as int),
            decreases bin.len() - i,
        {
            pool.push(bins[b].values[i]);
            i = i + 1;
            proof {
                assert(pool@ =~= before + bin.take(i as int));
                assert(before + bin.take(i as int) =~= (before + bin).take(before.len() + i));
                if pool@.len() == k {
                    assert(pool@ =~= joined(all).take(k as int));
                }
            }
        }
        proof {
            if pool@.len() < k {
                assert(bin.take(i as int) =~= bin);
            }
        }
        b = b + 1;
    }
    proof {
        if pool@.len() < k {
            assert(all.take(b as int) =~= all);
        }
    }
    pool
}

fn count_substantial(bins: &Vec<GroupBin>, floor: u128) -> (count: usize)
    ensures
        count == substantial(contents(bins@), floor as int),
        count <= bins@.len(),
{
    let ghost all = contents(bins@);
    let mut count: usize = 0;
    let mut i: usize = 0;
    assert(all.take(0) =~= Seq::<Seq<Color>>::empty());
    while i < bins.len()
        invariant
            i <= bins.len(),
            all == contents(bins@),
            count <= i,
            count == substantial(all.take(i as int), floor as int),
        decreases bins.len() - i,
    {
        proof {
            assert(all.take(i + 1).drop_last() =~= all.take(i as int));
            assert(all.take(i + 1).last() == bins@[i as int].values@);
        }
        if bins[i].values.len() as u128 > floor {
            count = count + 1;
        }
        i = i + 1;
    }
    assert(all.take(bins.len() as int) =~= all);
    count
}

fn divisor_for(d: u128) -> (g: u128)
    ensures
        g == distance_divisor(d as int),
        0 < g <= 1_000_000,
{
    if d < 10 {
        1
    } else if d >= 100 {
        1_000_000
    } else {
        assert(100 <= d * d <= 10_000) by (nonlinear_arith)
            requires
                10 <= d < 100,
        ;
        let square = d * d;
        assert(1000 <= square * d <= 1_000_000) by (nonlinear_arith)
            requires
                10 <= d < 100,
                100 <= square <= 10_000,
        ;
        square * d
    }
}

fn cap(reward: u128, total: u128) -> (r: u128)
    ensures
        r == capped(reward as int, total as int),
{
    if reward > total {
        total
    } else {
        reward
    }
}

fn scale_fitness(reward: u128, count: usize, d: u128) -> (f: u64)
    requires
        reward <= usize::MAX,
    ensures
        f == scaled_fitness(reward as int, count as int, d as int),
{
    if count == 0 {
        return 0;
    }
    let g = divisor_for(d);
    let s = count as u128;
    assert(reward * FITNESS_ONE <= 0xffff_ffff_ffff_ffff * 1_000_000_000_000) by (nonlinear_arith)
        requires
            0 <= reward <= 0xffff_ffff_ffff_ffff,
            FITNESS_ONE == 1_000_000_000_000,
    ;
    let x: u128 = reward * FITNESS_ONE as u128;
    let q = ((x / g) / s) / s;
    proof {
        vstd::arithmetic::div_mod::lemma_div_denominator(x as int, g as int, s as int);
        vstd::arithmetic::mul::lemma_mul_strictly_positive(g as int, s as int);
        vstd::arithmetic::div_mod::lemma_div_denominator(x as int, g as int * s as int, s as int);
        assert((g as int * s as int) * s as int == s as int * s as int * g as int)
            by (nonlinear_arith);
    }
    if q > u64::MAX as u128 {
        u64::MAX
    } else {
        q as u64
    }
}

impl Group {
    /// Works out the colour and the fitness of a face from the pixels that
    /// it covers.
    ///
    /// The pixels are sorted into bins of nearly one colour, in the order in
    /// which they come: a pixel joins the first bin whose mean is nearer to
    /// it than the cluster distance, and opens a new bin where there is none.
    /// The colour of the face is the mean of the largest bin if that bin
    /// holds the dominant share of the pixels, and else the mean of as many
    /// pixels as that share, taken from the bins in size order. The fitness
    /// rewards a single substantial bin and a small spread of the pixels
    /// about the colour. Without pixels the fitness is zero and the colour
    /// is `NO_PIXELS`.
    pub fn new(pixels: &Vec<Color>, config: &Config) -> (group: Group)
        requires
            config.wf(),
        ensures
            group == group_of(pixels@, *config),
            pixels@.len() == 0 ==> group.fitness == 0 && group.color == NO_PIXELS,
    {
        if pixels.len() == 0 {
            return Group { color: NO_PIXELS, fitness: 0 };
        }
        let total = pixels.len();
        let bins = sort_bins(make_bins(pixels, config.cluster_distance));
        let ghost clustered = cluster(pixels@, config.cluster_distance as int);
        let ghost sorted = contents(bins@);
        proof {
            lemma_cluster_sizes(pixels@, config.cluster_distance as int);
            lemma_by_size(clustered);
            assert(sorted[0] == bins@[0].values@);
            assert(bins@[0].wf());
        }
        assert(config.min_dominant_percent * total <= 100 * total) by (nonlinear_arith)
            requires
                0 <= config.min_dominant_percent <= 100,
                0 <= total,
        ;
        let share: u128 = config.min_dominant_percent as u128 * total as u128;
        let largest = bins[0].values.len();
        let color;
        let d;
        if 100 * (largest as u128) < share {
            let k = (share / 100) as usize;
            let pool = pool_of(&bins, k);
            proof {
                lemma_joined_len(sorted);
                assert(largest >= 1);
                assert(pool@.len() == k);
            }
            color = mean_of(&pool);
            d = spread_of(&pool, color);
        } else {
            color = bins[0].mean;
            d = spread_of(&bins[0].values, color);
        }
        let fitness = Group::fitness(&bins, total, d, config);
        Group { color, fitness }
    }

    fn fitness(bins: &Vec<GroupBin>, total: usize, d: u128, config: &Config) -> (f: u64)
        requires
            bins@.len() > 0,
            bins@[0].values@.len() <= total,
        ensures
            f == fitness_of(contents(bins@), total as int, d as int, *config),
    {
        if total < config.min_total_pixels as usize {
            return 0;
        }
        assert(config.min_substantial_percent * total <= 0xffff_ffff * 0xffff_ffff_ffff_ffff)
            by (nonlinear_arith)
            requires
                0 <= config.min_substantial_percent <= 0xffff_ffff,
                0 <= total <= 0xffff_ffff_ffff_ffff,
        ;
        let floor: u128 = (config.min_substantial_percent as u128 * total as u128) / 100;
        let count = count_substantial(bins, floor);
        let largest = bins[0].values.len() as u128;
        let all = total as u128;
        assert(contents(bins@)[0] == bins@[0].values@);
        let reward: u128 = if count == 0 {
            0
        } else if count == 1 {
            all
        } else if 10 * largest > 9 * all {
            cap(100, all)
        } else if 4 * largest > 3 * all {
            cap(10, all)
        } else {
            cap(1, all)
        };
        scale_fitness(reward, count, d)
    }
}

/// Bringing bins into size order keeps every bin: as many bins, as many
/// pixels, none of them empty if none was; and no bin stands before a
/// larger one.
pub proof fn lemma_by_size(bins: Seq<Seq<Color>>)
    ensures
        by_size(bins).len() == bins.len(),
        total_size(by_size(bins)) == total_size(bins),
        (forall|i: int| 0 <= i < bins.len() ==> (#[trigger] bins[i]).len() > 0) ==> (forall|i: int|
            0 <= i < bins.len() ==> (#[trigger] by_size(bins)[i]).len() > 0),
        forall|i: int, j: int|
            0 <= i <= j < bins.len() ==> (#[trigger] by_size(bins)[i]).len() >= (
            #[trigger] by_size(bins)[j]).len(),
        forall|i: int|
            0 <= i < bins.len() ==> (#[trigger] by_size(bins)[i]).len() <= total_size(bins),
    decreases bins.len(),
{
    if bins.len() > 0 {
        let rest = by_size(bins.drop_first());
        let b = bins.first();
        let at = slot_for(rest, b.len() as int, 0);
        lemma_by_size(bins.drop_first());
        lemma_slot_for(rest, b.len() as int, 0);
        lemma_total_size_insert(rest, at, b);
        lemma_total_size_drop_first(bins);
        let out = rest.insert(at, b);
        assert forall|i: int, j: int| 0 <= i <= j < bins.len() implies (#[trigger] out[i]).len() >= (
        #[trigger] out[j]).len() by {
            if j < at {
            } else if i > at {
                assert(out[i] == rest[i - 1]);
                assert(out[j] == rest[j - 1]);
            } else if i == at {
                if j > at {
                    assert(out[j] == rest[j - 1]);
                    assert(rest[at].len() >= rest[j - 1].len());
                }
            } else {
                if j > at {
                    assert(out[j] == rest[j - 1]);
                    assert(rest[i].len() > b.len());
                    assert(rest[at].len() >= rest[j - 1].len());
                }
            }
        }
        if forall|i: int| 0 <= i < bins.len() ==> (#[trigger] bins[i]).len() > 0 {
            assert forall|i: int| 0 <= i < bins.drop_first().len() implies (
            #[trigger] bins.drop_first()[i]).len() > 0 by {
                assert(bins.drop_first()[i] == bins[i + 1]);
            }
            assert forall|i: int| 0 <= i < bins.len() implies (#[trigger] out[i]).len() > 0 by {
                if i < at {
                } else if i == at {
                    assert(out[i] == bins[0]);
                } else {
                    assert(out[i] == rest[i - 1]);
                }
            }
        }
        assert forall|i: int| 0 <= i < bins.len() implies (#[trigger] out[i]).len() <= total_size(
            bins,
        ) by {
            if i < at {
            } else if i == at {
            } else {
                assert(out[i] == rest[i - 1]);
            }
        }
    }
}

proof fn lemma_total_size_insert(bins: Seq<Seq<Color>>, at: int, b: Seq<Color>)
    requires
        0 <= at <= bins.len(),
    ensures
        total_size(bins.insert(at, b)) == total_size(bins) + b.len(),
    decreases bins.len() - at,
{
    if at == bins.len() {
        assert(bins.insert(at, b).drop_last() =~= bins);
    } else {
        lemma_total_size_insert(bins.drop_last(), at, b);
        assert(bins.insert(at, b).drop_last() =~= bins.drop_last().insert(at, b));
    }
}

proof fn lemma_total_size_drop_first(bins: Seq<Seq<Color>>)
    requires
        bins.len() > 0,
    ensures
        total_size(bins) == total_size(bins.drop_first()) + bins.first().len(),
    decreases bins.len(),
{
    if bins.len() == 1 {
        assert(bins.drop_last() =~= Seq::<Seq<Color>>::empty());
        assert(bins.drop_first() =~= Seq::<Seq<Color>>::empty());
    } else {
        lemma_total_size_drop_first(bins.drop_last());
        assert(bins.drop_last().drop_first() =~= bins.drop_first().drop_last());
    }
}

/// The divisor of the spread never falls as the spread grows.
pub proof fn lemma_divisor_grows(d1: int, d2: int)
    requires
        d1 <= d2,
    ensures
        1 <= distance_divisor(d1) <= distance_divisor(d2),
{
    if 10 <= d1 && d2 < 100 {
        assert(1 <= d1 * d1 * d1 <= d2 * d2 * d2) by (nonlinear_arith)
            requires
                10 <= d1 <= d2,
        ;
    } else if 10 <= d1 < 100 {
        assert(1 <= d1 * d1 * d1 <= 1_000_000) by (nonlinear_arith)
            requires
                10 <= d1 < 100,
        ;
    } else if 10 <= d2 < 100 {
        assert(1 <= d2 * d2 * d2) by (nonlinear_arith)
            requires
                10 <= d2,
        ;
    }
}

/// With the bins and the reward held fixed, a larger spread never gives a
/// higher fitness.
pub proof fn lemma_fitness_falls_with_spread(reward: int, substantial_bins: int, d1: int, d2: int)
    requires
        0 <= reward,
        d1 <= d2,
    ensures
        scaled_fitness(reward, substantial_bins, d1) >= scaled_fitness(reward, substantial_bins, d2),
{
    if substantial_bins > 0 {
        let g1 = distance_divisor(d1);
        let g2 = distance_divisor(d2);
        let s2 = substantial_bins * substantial_bins;
        lemma_divisor_grows(d1, d2);
        assert(1 <= s2 * g1 <= s2 * g2) by (nonlinear_arith)
            requires
                1 <= g1 <= g2,
                s2 == substantial_bins * substantial_bins,
                substantial_bins > 0,
        ;
        assert(0 <= reward * FITNESS_ONE) by (nonlinear_arith)
            requires
                0 <= reward,
                FITNESS_ONE > 0,
        ;
        vstd::arithmetic::div_mod::lemma_div_is_ordered_by_denominator(
            reward * FITNESS_ONE,
            s2 * g1,
            s2 * g2,
        );
    }
}

/// With the bins held fixed, a larger spread of the pixels about the colour
/// never gives a group a higher fitness.
pub proof fn lemma_group_fitness_falls_with_spread(
    bins: Seq<Seq<Color>>,
    total: int,
    d1: int,
    d2: int,
    config: Config,
)
    requires
        0 <= total,
        d1 <= d2,
    ensures
        fitness_of(bins, total, d2, config) <= fitness_of(bins, total, d1, config),
{
    if !(total < config.min_total_pixels || bins.len() == 0) {
        let floor = (config.min_substantial_percent * total) / 100;
        let count = substantial(bins, floor);
        lemma_reward_bounds(count, bins[0].len() as int, total);
        lemma_fitness_falls_with_spread(
            size_reward(count, bins[0].len() as int, total),
            count,
            d1,
            d2,
        );
    }
}

/// A reward is never below nothing nor above one for each pixel.
pub proof fn lemma_reward_bounds(substantial_bins: int, largest: int, total: int)
    requires
        0 <= total,
    ensures
        0 <= size_reward(substantial_bins, largest, total) <= total,
{
}

/// The fitness is never below nothing nor above one unit for each unit of
/// reward.
pub proof fn lemma_scaled_fitness_bounds(reward: int, substantial_bins: int, d: int)
    requires
        0 <= reward,
    ensures
        0 <= scaled_fitness(reward, substantial_bins, d) <= reward * FITNESS_ONE,
        scaled_fitness(reward, substantial_bins, d) <= u64::MAX,
{
    assert(0 <= reward * FITNESS_ONE) by (nonlinear_arith)
        requires
            0 <= reward,
            FITNESS_ONE > 0,
    ;
    if substantial_bins > 0 {
        let g = distance_divisor(d);
        let s2 = substantial_bins * substantial_bins;
        lemma_divisor_grows(d, d);
        assert(1 <= s2 * g) by (nonlinear_arith)
            requires
                1 <= g,
                s2 == substantial_bins * substantial_bins,
                substantial_bins > 0,
        ;
        vstd::arithmetic::div_mod::lemma_div_is_ordered_by_denominator(
            reward * FITNESS_ONE,
            1,
            s2 * g,
        );
        vstd::arithmetic::div_mod::lemma_div_pos_is_pos(reward * FITNESS_ONE, s2 * g);
    }
}

/// With one spread, a group with a single substantial bin scores at least
/// as high as a group of its size with several.
pub proof fn lemma_single_bin_scores_highest(total: int, substantial_bins: int, largest: int, d: int)
    requires
        0 <= total,
        2 <= substantial_bins,
    ensures
        scaled_fitness(size_reward(1, total, total), 1, d) >= scaled_fitness(
            size_reward(substantial_bins, largest, total),
            substantial_bins,
            d,
        ),
{
    let g = distance_divisor(d);
    let s2 = substantial_bins * substantial_bins;
    let reward = size_reward(substantial_bins, largest, total);
    lemma_divisor_grows(d, d);
    lemma_reward_bounds(substantial_bins, largest, total);
    assert(1 * 1 * g == g) by (nonlinear_arith);
    assert(g <= s2 * g) by (nonlinear_arith)
        requires
            1 <= g,
            s2 == substantial_bins * substantial_bins,
            2 <= substantial_bins,
    ;
    assert(0 <= reward * FITNESS_ONE <= total * FITNESS_ONE) by (nonlinear_arith)
        requires
            0 <= reward <= total,
            FITNESS_ONE > 0,
    ;
    vstd::arithmetic::div_mod::lemma_div_is_ordered(reward * FITNESS_ONE, total * FITNESS_ONE, g);
    vstd::arithmetic::div_mod::lemma_div_is_ordered_by_denominator(reward * FITNESS_ONE, g, s2 * g);
}

/// `n` pixels of the colour `c`.
pub open spec fn uniform(c: Color, n: nat) -> Seq<Color> {
    Seq::new(n, |i: int| c)
}

proof fn lemma_no_distance(c: Color)
    ensures
        distance(c, c) == 0,
{
    assert(0 * 0 == 0) by (nonlinear_arith);
}

proof fn lemma_uniform_sums(c: Color, n: nat)
    ensures
        channel_sums(uniform(c, n)) == (n * c.0, n * c.1, n * c.2),
        spread(uniform(c, n), c) == 0,
    decreases n,
{
    if n > 0 {
        lemma_uniform_sums(c, (n - 1) as nat);
        lemma_no_distance(c);
        assert(uniform(c, n).drop_last() =~= uniform(c, (n - 1) as nat));
        assert(uniform(c, n).last() == c);
        assert(n * c.0 == (n - 1) * c.0 + c.0) by (nonlinear_arith);
        assert(n * c.1 == (n - 1) * c.1 + c.1) by (nonlinear_arith);
        assert(n * c.2 == (n - 1) * c.2 + c.2) by (nonlinear_arith);
    } else {
        assert(0 * c.0 == 0 && 0 * c.1 == 0 && 0 * c.2 == 0) by (nonlinear_arith);
    }
}

proof fn lemma_uniform_mean(c: Color, n: nat)
    requires
        n > 0,
    ensures
        mean_color(uniform(c, n)) == c,
{
    lemma_uniform_sums(c, n);
    vstd::arithmetic::div_mod::lemma_div_multiples_vanish(c.0 as int, n as int);
    vstd::arithmetic::div_mod::lemma_div_multiples_vanish(c.1 as int, n as int);
    vstd::arithmetic::div_mod::lemma_div_multiples_vanish(c.2 as int, n as int);
}

proof fn lemma_uniform_cluster(c: Color, n: nat, threshold: int)
    requires
        n > 0,
        threshold > 0,
    ensures
        cluster(uniform(c, n), threshold) == seq![uniform(c, n)],
    decreases n,
{
    let pixels = uniform(c, n);
    assert(pixels.drop_last() =~= uniform(c, (n - 1) as nat));
    if n == 1 {
        assert(cluster(pixels.drop_last(), threshold) =~= Seq::<Seq<Color>>::empty());
        assert(seq![c] =~= uniform(c, 1));
    } else {
        lemma_uniform_cluster(c, (n - 1) as nat, threshold);
        lemma_uniform_mean(c, (n - 1) as nat);
        let sooner = seq![uniform(c, (n - 1) as nat)];
        lemma_no_distance(c);
        assert(sooner[0] == uniform(c, (n - 1) as nat));
        assert(distance(mean_color(sooner[0]), c) == 0);
        assert(first_near(sooner, c, threshold, 0) == 0);
        assert(pixels.last() == c);
        assert(uniform(c, (n - 1) as nat).push(c) =~= uniform(c, n));
        assert(sooner.update(0, sooner[0].push(c)) =~= seq![uniform(c, n)]);
    }
}

/// A face that covers pixels of one colour only has that colour and the
/// highest fitness that there is for its size: one unit for each pixel.
pub proof fn lemma_group_of_one_colour(c: Color, n: nat, config: Config)
    requires
        n > 0,
        config.wf(),
        config.cluster_distance > 0,
        config.min_substantial_percent < 100,
    ensures
        group_of(uniform(c, n), config).color == c,
        n >= config.min_total_pixels ==> group_of(uniform(c, n), config).fitness == if n
            * FITNESS_ONE > u64::MAX {
            u64::MAX as int
        } else {
            n * FITNESS_ONE
        },
        n < config.min_total_pixels ==> group_of(uniform(c, n), config).fitness == 0,
{
    let pixels = uniform(c, n);
    let bin = pixels;
    lemma_uniform_cluster(c, n, config.cluster_distance as int);
    lemma_uniform_mean(c, n);
    lemma_uniform_sums(c, n);
    let bins = seq![bin];
    assert(bins.drop_first() =~= Seq::<Seq<Color>>::empty());
    assert(by_size(bins.drop_first()) =~= Seq::<Seq<Color>>::empty());
    assert(by_size(bins) =~= bins) by {
        assert(slot_for(Seq::<Seq<Color>>::empty(), bin.len() as int, 0) == 0);
        assert(Seq::<Seq<Color>>::empty().insert(0, bin) =~= bins);
    }
    assert(config.min_dominant_percent * n <= 100 * n) by (nonlinear_arith)
        requires
            0 <= config.min_dominant_percent <= 100,
            0 <= n,
    ;
    assert(color_basis(bins, n as int, config) == bin);
    let floor = (config.min_substantial_percent * n) / 100;
    assert(floor < n) by (nonlinear_arith)
        requires
            0 <= config.min_substantial_percent < 100,
            n > 0,
            floor == (config.min_substantial_percent * n) / 100,
    ;
    assert(bins.drop_last() =~= Seq::<Seq<Color>>::empty());
    assert(substantial(bins.drop_last(), floor) == 0);
    assert(bins.last().len() == n);
    assert(substantial(bins, floor) == 1);
    assert(1 * 1 * 1 == 1) by (nonlinear_arith);
    assert((n * FITNESS_ONE) / 1 == n * FITNESS_ONE);
}

/// No group scores above a group of its size that holds one colour only:
/// whatever colours are put in the place of pixels of one colour, the
/// fitness does not rise.
pub proof fn lemma_one_colour_scores_highest(pixels: Seq<Color>, c: Color, config: Config)
    requires
        pixels.len() > 0,
        config.wf(),
        config.cluster_distance > 0,
        config.min_substantial_percent < 100,
    ensures
        group_of(pixels, config).fitness <= group_of(uniform(c, pixels.len()), config).fitness,
{
    let n = pixels.len();
    lemma_group_of_one_colour(c, n, config);
    let bins = by_size(cluster(pixels, config.cluster_distance as int));
    let basis = color_basis(bins, n as int, config);
    let d = spread(basis, mean_color(basis));
    let value = fitness_of(bins, n as int, d, config);
    if n < config.min_total_pixels || bins.len() == 0 {
        assert(value == 0);
    } else {
        let floor = (config.min_substantial_percent * n) / 100;
        let count = substantial(bins, floor);
        let reward = size_reward(count, bins[0].len() as int, n as int);
        lemma_reward_bounds(count, bins[0].len() as int, n as int);
        lemma_scaled_fitness_bounds(reward, count, d);
        assert(reward * FITNESS_ONE <= n * FITNESS_ONE) by (nonlinear_arith)
            requires
                0 <= reward <= n,
                FITNESS_ONE > 0,
        ;
    }
}

} // verus!
