use lowpoly::config::Config;
use lowpoly::pixel_group::{Group, FITNESS_ONE, NO_PIXELS};

fn standard() -> Config {
    Config::new()
}

#[test]
fn no_pixels_give_no_fitness_and_the_sentinel_colour() {
    let g = Group::new(&vec![], &standard());
    assert_eq!(g.fitness, 0);
    assert_eq!(g.color, (255, 0, 255));
    assert_eq!(g.color, NO_PIXELS);
}

#[test]
fn the_standard_configuration_holds_the_tuned_numbers() {
    let c = Config::new();
    assert_eq!(c.cluster_distance, 150);
    assert_eq!(c.min_dominant_percent, 95);
    assert_eq!(c.min_substantial_percent, 1);
    assert_eq!(c.min_total_pixels, 10);
    assert_eq!(c.mutation_odds, (3, 5));
    assert_eq!(c.segments, 35);
    assert_eq!(c.generations, 20);
    assert_eq!(c.mutations_per_generation, 20);
    assert_eq!(c.max_deviation, 10);
    assert!(c.is_valid());
    assert!(!Config { min_dominant_percent: 101, ..c }.is_valid());
    assert!(!Config { min_substantial_percent: 101, ..c }.is_valid());
    assert!(!Config { mutation_odds: (1, 0), ..c }.is_valid());
    assert!(!Config { mutation_odds: (3, 2), ..c }.is_valid());
    assert!(Config { mutation_odds: (2, 2), ..c }.is_valid());
}

#[test]
fn a_group_of_one_colour_scores_its_size() {
    let pixels = vec![(10, 20, 30); 100];
    let g = Group::new(&pixels, &standard());
    assert_eq!(g.color, (10, 20, 30));
    assert_eq!(g.fitness, 100 * FITNESS_ONE);
}

#[test]
fn a_small_group_has_no_fitness_but_a_colour() {
    let pixels = vec![(10, 20, 30); 9];
    let g = Group::new(&pixels, &standard());
    assert_eq!(g.color, (10, 20, 30));
    assert_eq!(g.fitness, 0);
    let ten = vec![(10, 20, 30); 10];
    assert_eq!(Group::new(&ten, &standard()).fitness, 10 * FITNESS_ONE);
}

#[test]
fn near_colours_share_a_bin_and_the_mean_is_rounded_down() {
    // squared distance 3 * 7 * 7 = 147 < 150: one bin
    let mut pixels = vec![(100, 100, 100); 10];
    pixels.extend(vec![(107, 107, 107); 10]);
    let g = Group::new(&pixels, &standard());
    assert_eq!(g.color, (103, 103, 103));
    // spread: 10 * 27 + 10 * 48 = 750, a hundred or more: divided by a million
    assert_eq!(g.fitness, 20 * FITNESS_ONE / 1_000_000);
    assert_eq!(g.fitness, 20_000_000);
}

#[test]
fn a_middling_spread_divides_by_its_cube() {
    let mut pixels = vec![(100, 100, 100); 19];
    pixels.push((103, 103, 103));
    let g = Group::new(&pixels, &standard());
    assert_eq!(g.color, (100, 100, 100));
    // spread: 27, between ten and a hundred: divided by 27 * 27 * 27
    assert_eq!(g.fitness, 20 * FITNESS_ONE / 19_683);
    assert_eq!(g.fitness, 1_016_105_268);
}

#[test]
fn the_divisor_never_falls_as_the_spread_grows() {
    // one bin of 20 pixels, the last one further and further from the others
    let mut last = 0;
    let mut scores = vec![];
    for step in 0..12u8 {
        let mut pixels = vec![(100, 100, 100); 19];
        pixels.push((100 + step, 100, 100));
        let g = Group::new(&pixels, &standard());
        scores.push(g.fitness);
        last = g.fitness;
    }
    assert_eq!(scores[0], 20 * FITNESS_ONE);
    assert_eq!(scores[3], 20 * FITNESS_ONE);
    assert_eq!(scores[4], 20 * FITNESS_ONE / 4096);
    assert_eq!(scores[9], 20 * FITNESS_ONE / 531_441);
    assert_eq!(scores[10], 20 * FITNESS_ONE / 1_000_000);
    assert_eq!(last, 20 * FITNESS_ONE / 1_000_000);
    for pair in scores.windows(2) {
        assert!(pair[0] >= pair[1]);
    }
}

#[test]
fn a_second_colour_never_raises_the_fitness_of_a_small_group() {
    let one = vec![(0, 0, 0); 11];
    let mut two = vec![(0, 0, 0); 10];
    two.push((255, 255, 255));
    let plain = Group::new(&one, &standard());
    let mixed = Group::new(&two, &standard());
    assert_eq!(plain.fitness, 11 * FITNESS_ONE);
    // two substantial bins: the reward is capped at the 11 pixels, over 4
    assert_eq!(mixed.fitness, 11 * FITNESS_ONE / 4);
    assert_eq!(mixed.color, (0, 0, 0));
    for n in 10..40usize {
        for other in 1..n {
            let mut pixels = vec![(0, 0, 0); n - other];
            pixels.extend(vec![(255, 255, 255); other]);
            let uniform = vec![(0, 0, 0); n];
            assert!(
                Group::new(&pixels, &standard()).fitness <= Group::new(&uniform, &standard()).fitness
            );
        }
    }
}

#[test]
fn a_small_spread_costs_nothing() {
    let mut pixels = vec![(100, 100, 100); 19];
    pixels.push((101, 101, 102));
    let g = Group::new(&pixels, &standard());
    assert_eq!(g.color, (100, 100, 100));
    assert_eq!(g.fitness, 20 * FITNESS_ONE);
}

#[test]
fn a_large_spread_divides_by_a_million() {
    // one bin, every pixel 12 away in one channel from the first
    let mut pixels = vec![(100, 100, 100); 50];
    pixels.extend(vec![(112, 100, 100); 50]);
    let g = Group::new(&pixels, &standard());
    assert_eq!(g.color, (106, 100, 100));
    // spread: 50 * 36 + 50 * 36 = 3600 > 1000
    assert_eq!(g.fitness, 100 * FITNESS_ONE / 1_000_000);
}

#[test]
fn two_far_colours_make_two_bins() {
    let mut pixels = vec![(0, 0, 0); 50];
    pixels.extend(vec![(255, 255, 255); 50]);
    let g = Group::new(&pixels, &standard());
    // the largest bin holds half: the colour is the mean of the first 95 pixels
    assert_eq!(g.color, (120, 120, 120));
    // two substantial bins, none dominant: reward 1, over 4, over a million
    assert_eq!(g.fitness, FITNESS_ONE / 4 / 1_000_000);
}

#[test]
fn a_dominant_bin_beside_a_small_one() {
    let mut pixels = vec![(10, 10, 10); 96];
    pixels.extend(vec![(200, 200, 200); 4]);
    let g = Group::new(&pixels, &standard());
    // 96 of 100 is the dominant share: colour and spread of the largest bin
    assert_eq!(g.color, (10, 10, 10));
    // two substantial bins, largest above nine tenths: reward 100 over 4
    assert_eq!(g.fitness, 25 * FITNESS_ONE);
}

#[test]
fn the_largest_bin_comes_first_whatever_the_order_of_the_pixels() {
    let mut pixels = vec![(200, 200, 200); 4];
    pixels.extend(vec![(10, 10, 10); 96]);
    let g = Group::new(&pixels, &standard());
    assert_eq!(g.color, (10, 10, 10));
    assert_eq!(g.fitness, 25 * FITNESS_ONE);
}

#[test]
fn three_quarters_in_the_largest_bin_reward_ten() {
    let mut pixels = vec![(10, 10, 10); 80];
    pixels.extend(vec![(200, 200, 200); 20]);
    let g = Group::new(&pixels, &standard());
    // colour from the first 95 pixels in size order: 80 dark and 15 light
    assert_eq!(g.color, (40, 40, 40));
    assert_eq!(g.fitness, 10 * FITNESS_ONE / 4 / 1_000_000);
}

#[test]
fn bins_below_the_substantial_share_do_not_count() {
    let mut pixels = vec![(10, 10, 10); 199];
    pixels.push((200, 200, 200));
    let g = Group::new(&pixels, &standard());
    // the second bin holds 1 of 200, not more than a hundredth
    assert_eq!(g.color, (10, 10, 10));
    assert_eq!(g.fitness, 200 * FITNESS_ONE);
}

#[test]
fn without_a_substantial_bin_there_is_no_fitness() {
    let config = Config { min_substantial_percent: 100, ..Config::new() };
    let pixels = vec![(10, 10, 10); 50];
    assert_eq!(Group::new(&pixels, &config).fitness, 0);
}

#[test]
fn fitness_does_not_rise_with_the_variance_of_the_colours() {
    // 100 pixels each: one colour, a narrow band, a wide band in one bin,
    // two bins, four bins
    let flat = vec![(100, 100, 100); 100];
    let mut narrow = vec![(100, 100, 100); 50];
    narrow.extend(vec![(101, 100, 100); 50]);
    let mut wide = vec![(100, 100, 100); 50];
    wide.extend(vec![(110, 100, 100); 50]);
    let mut two = vec![(100, 100, 100); 50];
    two.extend(vec![(200, 100, 100); 50]);
    let mut four = vec![(0, 0, 0); 25];
    four.extend(vec![(80, 80, 80); 25]);
    four.extend(vec![(160, 160, 160); 25]);
    four.extend(vec![(240, 240, 240); 25]);
    let scores: Vec<u64> = [flat, narrow, wide, two, four]
        .iter()
        .map(|pixels| Group::new(pixels, &standard()).fitness)
        .collect();
    assert_eq!(scores[0], 100 * FITNESS_ONE);
    for pair in scores.windows(2) {
        assert!(pair[0] >= pair[1]);
    }
    assert!(scores[0] > scores[4]);
}

#[test]
fn the_cluster_distance_can_be_tuned() {
    let mut pixels = vec![(100, 100, 100); 10];
    pixels.extend(vec![(107, 107, 107); 10]);
    let strict = Config { cluster_distance: 147, ..Config::new() };
    let g = Group::new(&pixels, &strict);
    // two bins of ten each: colour from the first 19 pixels
    assert_eq!(g.color, (103, 103, 103));
    assert!(g.fitness < FITNESS_ONE);
}

#[test]
fn fitness_stops_at_the_largest_value() {
    let pixels = vec![(1, 2, 3); 20_000_000];
    let g = Group::new(&pixels, &standard());
    assert_eq!(g.fitness, u64::MAX);
    assert_eq!(g.color, (1, 2, 3));
}
