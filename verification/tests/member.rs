use lowpoly::config::Config;
use lowpoly::member::{Member, MemberType};
use lowpoly::point::Point;

#[test]
fn a_base_member_stands_at_its_point() {
    let m = Member::new(3, MemberType::Base, (10, 20), (100, 100));
    assert_eq!(m.id, 3);
    assert_eq!(m.source, MemberType::Base);
    assert_eq!(m.point, Point(10, 20));
    assert_eq!(m.fitness, 0);
    assert_eq!(m.size(), 0);
    assert_eq!(m.point(0), Point(10, 20));
    assert_eq!(m.values(0), (10, 20));
    assert!(m.mutation(0).is_none());
}

#[test]
fn a_mutation_member_stands_where_its_step_takes_it() {
    let m = Member::new(1, MemberType::Mutation(Point(5, -50)), (10, 20), (100, 100));
    assert_eq!(m.point, Point(15, 0));
    assert_eq!(m.source, MemberType::Mutation(Point(5, -50)));
}

#[test]
fn a_round_with_a_hit_holds_a_candidate() {
    let mut m = Member::new(0, MemberType::Base, (10, 20), (100, 100));
    let at = m.mutate_with(true, Point(4, 5));
    assert_eq!(at, Point(14, 25));
    assert_eq!(m.size(), 1);
    assert_eq!(m.point, Point(10, 20));
    assert_eq!(m.point(1), Point(14, 25));
    let candidate = m.mutation(1).unwrap();
    assert_eq!(candidate.source, MemberType::Mutation(Point(4, 5)));
    assert_eq!(candidate.fitness, 0);
}

#[test]
fn a_round_without_a_hit_keeps_the_base() {
    let mut m = Member::new(0, MemberType::Base, (10, 20), (100, 100));
    let at = m.mutate_with(false, Point(4, 5));
    assert_eq!(at, Point(10, 20));
    assert_eq!(m.size(), 1);
    assert!(m.mutation(1).is_none());
    assert_eq!(m.point(1), Point(10, 20));
}

#[test]
fn odds_of_all_always_hit_and_odds_of_none_never() {
    let always = Config { mutation_odds: (1, 1), ..Config::new() };
    let never = Config { mutation_odds: (0, 1), ..Config::new() };
    for _ in 0..50 {
        let mut m = Member::new(0, MemberType::Base, (10, 20), (100, 100));
        assert_eq!(m.mutate(Point(1, 1), &always), Point(11, 21));
        assert!(m.mutation(1).is_some());
        assert_eq!(m.mutate(Point(1, 1), &never), Point(10, 20));
        assert!(m.mutation(2).is_none());
    }
}

#[test]
fn fair_odds_give_both_outcomes() {
    let config = Config { mutation_odds: (1, 2), ..Config::new() };
    let mut m = Member::new(0, MemberType::Base, (10, 20), (100, 100));
    let mut hits = 0;
    for round in 1..=400 {
        m.mutate(Point(1, 1), &config);
        if m.mutation(round).is_some() {
            hits += 1;
        }
    }
    assert!(hits > 100 && hits < 300);
}

#[test]
fn fitness_comes_in_for_the_round_that_is_named() {
    let mut m = Member::new(0, MemberType::Base, (10, 20), (100, 100));
    m.mutate_with(true, Point(1, 1));
    m.mutate_with(false, Point(2, 2));
    m.add_fitness(0, 5);
    m.add_fitness(0, 6);
    m.add_fitness(1, 7);
    m.add_fitness(2, 8);
    assert_eq!(m.fitness, 11);
    assert_eq!(m.mutation(1).unwrap().fitness, 7);
    assert!(m.mutation(2).is_none());
}

#[test]
fn incoming_fitness_stops_at_the_largest_value() {
    let mut m = Member::new(0, MemberType::Base, (10, 20), (100, 100));
    m.add_fitness(0, u64::MAX - 1);
    m.add_fitness(0, 5);
    assert_eq!(m.fitness, u64::MAX);
}

#[test]
fn merging_weighs_the_steps_by_their_share_of_the_fitness() {
    let mut m = Member::new(0, MemberType::Base, (100, 100), (1000, 1000));
    m.add_fitness(0, 5);
    m.mutate_with(true, Point(8, 4));
    m.mutate_with(true, Point(4, 8));
    m.add_fitness(1, 10);
    m.add_fitness(2, 30);
    // a quarter of the first step and three quarters of the second
    assert_eq!(m.merged_point(), Point(100 + 2 + 3, 100 + 1 + 6));
    let merged = m.merge_mutations_into_base();
    assert_eq!(merged, Point(105, 107));
    assert_eq!(m.size(), 3);
    assert_eq!(m.point(3), Point(105, 107));
    assert_eq!(m.mutation(3).unwrap().source, MemberType::Base);
    assert_eq!(m.point, Point(100, 100));
}

#[test]
fn merging_passes_over_rounds_that_did_no_better_than_the_base() {
    let mut m = Member::new(0, MemberType::Base, (100, 100), (1000, 1000));
    m.add_fitness(0, 10);
    m.mutate_with(true, Point(80, 80));
    m.mutate_with(true, Point(-40, 20));
    m.mutate_with(false, Point(7, 7));
    m.add_fitness(1, 10);
    m.add_fitness(2, 11);
    m.add_fitness(3, 1000);
    assert_eq!(m.merge_mutations_into_base(), Point(60, 120));
}

#[test]
fn merging_without_a_round_to_the_good_keeps_the_base() {
    let mut m = Member::new(0, MemberType::Base, (100, 100), (1000, 1000));
    m.add_fitness(0, 10);
    m.mutate_with(true, Point(80, 80));
    m.mutate_with(false, Point(80, 80));
    m.add_fitness(1, 9);
    assert_eq!(m.merge_mutations_into_base(), Point(100, 100));
    let mut fresh = Member::new(0, MemberType::Base, (1, 2), (1000, 1000));
    assert_eq!(fresh.merge_mutations_into_base(), Point(1, 2));
}

#[test]
fn merging_rounds_the_shares_towards_zero() {
    let mut m = Member::new(0, MemberType::Base, (100, 100), (1000, 1000));
    m.mutate_with(true, Point(10, -10));
    m.mutate_with(true, Point(10, -10));
    m.mutate_with(true, Point(10, -10));
    m.add_fitness(1, 1);
    m.add_fitness(2, 1);
    m.add_fitness(3, 1);
    // each third of 10 is 3, of -10 is -3
    assert_eq!(m.merge_mutations_into_base(), Point(109, 91));
}

#[test]
fn merging_keeps_the_point_in_the_picture() {
    let mut m = Member::new(0, MemberType::Base, (0, 95), (100, 100));
    m.mutate_with(true, Point(50, 50));
    m.add_fitness(1, 1);
    // the x coordinate is pinned at the border, the y coordinate is clamped
    assert_eq!(m.mutation(1).unwrap().point, Point(0, 100));
    assert_eq!(m.merge_mutations_into_base(), Point(0, 100));
}
