use vstd::prelude::*;
use std::collections::HashMap;

verus! {

broadcast use vstd::std_specs::hash::group_hash_axioms;

/// No number stands before a smaller one.
pub open spec fn in_order(values: Seq<i32>) -> bool {
    forall|i: int, j: int| 0 <= i <= j < values.len() ==> values[i] <= values[j]
}

/// The numbers in ascending order: the same numbers, each as often as
/// before, none before a smaller one.
pub open spec fn ascending(values: Seq<i32>) -> Seq<i32> {
    choose|sorted: Seq<i32>| in_order(sorted) && sorted.to_multiset() == values.to_multiset()
}

/// There is one way only to put numbers in ascending order.
pub proof fn lemma_ascending_is(values: Seq<i32>, sorted: Seq<i32>)
    requires
        in_order(sorted),
        sorted.to_multiset() == values.to_multiset(),
    ensures
        ascending(values) == sorted,
{
    let found = ascending(values);
    assert(in_order(found) && found.to_multiset() == values.to_multiset());
    let leq = |x: i32, y: i32| x <= y;
    assert(vstd::relations::sorted_by(found, leq)) by {
        assert forall|i: int, j: int| 0 <= i < j < found.len() implies #[trigger] leq(
            found[i],
            found[j],
        ) by {
            assert(found[i] <= found[j]);
        }
    }
    assert(vstd::relations::sorted_by(sorted, leq)) by {
        assert forall|i: int, j: int| 0 <= i < j < sorted.len() implies #[trigger] leq(
            sorted[i],
            sorted[j],
        ) by {
            assert(sorted[i] <= sorted[j]);
        }
    }
    assert(vstd::relations::total_ordering(leq)) by {
        assert(vstd::relations::reflexive(leq));
        assert(vstd::relations::antisymmetric(leq));
        assert(vstd::relations::transitive(leq));
        assert(vstd::relations::strongly_connected(leq));
    }
    vstd::seq_lib::lemma_sorted_unique(found, sorted, leq);
}

/// `slice::sort` on numbers: afterwards the same numbers stand in
/// ascending order.
#[verifier::external_body]
fn sort_numbers(values: &mut Vec<i32>)
    ensures
        in_order(final(values)@),
        final(values)@.to_multiset() == old(values)@.to_multiset(),
        final(values)@.len() == old(values)@.len(),
{
    values.sort();
}

/// The sum of the numbers.
pub open spec fn total(values: Seq<i32>) -> int
    decreases values.len(),
{
    if values.len() == 0 {
        0
    } else {
        total(values.drop_last()) + values.last()
    }
}

/// How often `v` occurs among the numbers.
pub open spec fn occurrences(values: Seq<i32>, v: i32) -> int
    decreases values.len(),
{
    if values.len() == 0 {
        0
    } else {
        occurrences(values.drop_last(), v) + if values.last() == v {
            1int
        } else {
            0int
        }
    }
}

/// The number that the tally settles on. It starts at `0`; a number takes
/// its place as soon as it has been seen more often than the number in
/// place is large.
pub open spec fn settled(values: Seq<i32>) -> i32
    decreases values.len(),
{
    if values.len() == 0 {
        0
    } else {
        let sooner = settled(values.drop_last());
        if occurrences(values, values.last()) > sooner {
            values.last()
        } else {
            sooner
        }
    }
}

/// The number in the middle, or `0` where there are no numbers.
pub open spec fn middle(values: Seq<i32>) -> i32 {
    if values.len() == 0 {
        0
    } else {
        values[values.len() as int / 2]
    }
}

/// What is worked out of a list of numbers.
#[derive(Clone, Copy, Debug, PartialEq, Eq)]
pub struct Summary {
    pub sum: i128,
    pub len: usize,
    pub median: i32,
    pub mode: i32,
}

proof fn lemma_total_bounds(values: Seq<i32>)
    ensures
        values.len() * i32::MIN <= total(values) <= values.len() * i32::MAX,
    decreases values.len(),
{
    if values.len() > 0 {
        lemma_total_bounds(values.drop_last());
        assert(values.len() * i32::MAX == (values.len() - 1) * i32::MAX + i32::MAX)
            by (nonlinear_arith);
        assert(values.len() * i32::MIN == (values.len() - 1) * i32::MIN + i32::MIN)
            by (nonlinear_arith);
    }
}

proof fn lemma_occurrences_bounds(values: Seq<i32>, v: i32)
    ensures
        0 <= occurrences(values, v) <= values.len(),
    decreases values.len(),
{
    if values.len() > 0 {
        lemma_occurrences_bounds(values.drop_last(), v);
    }
}

/// Sums the numbers up, picks the one in the middle and works out the one
/// that the tally settles on, for the numbers in the order in which they
/// stand.
pub fn tally(values: &Vec<i32>) -> (summary: Summary)
    ensures
        summary.len == values@.len(),
        summary.sum == total(values@),
        summary.median == middle(values@),
        summary.mode == settled(values@),
{
    let ghost sorted = values@;
    let mut mode: i32 = 0;
    let mut median: i32 = 0;
    let mut sum: i128 = 0;
    let mut seen: HashMap<i32, usize> = HashMap::new();
    let half = values.len() / 2;
    let mut i: usize = 0;
    assert(sorted.take(0) =~= Seq::<i32>::empty());
    while i < values.len()
        invariant
            i <= sorted.len(),
            sorted == values@,
            half == sorted.len() / 2,
            sum == total(sorted.take(i as int)),
            mode == settled(sorted.take(i as int)),
            median == if i > half {
                sorted[half as int]
            } else {
                0
            },
            forall|v: i32|
                seen@.contains_key(v) ==> seen@[v] == occurrences(sorted.take(i as int), v),
            forall|v: i32|
                !seen@.contains_key(v) ==> occurrences(sorted.take(i as int), v) == 0,
        decreases values.len() - i,
    {
        let val = values[i];
        let ghost sooner = sorted.take(i as int);
        let ghost now = sorted.take(i + 1);
        proof {
            assert(now.drop_last() =~= sooner);
            assert(now.last() == val);
            lemma_total_bounds(sooner);
            lemma_occurrences_bounds(sooner, val);
            assert(i * i32::MAX <= usize::MAX * i32::MAX) by (nonlinear_arith)
                requires
                    0 <= i <= usize::MAX,
            ;
            assert(i * i32::MIN >= usize::MAX * i32::MIN) by (nonlinear_arith)
                requires
                    0 <= i <= usize::MAX,
            ;
        }
        if i == half {
            median = val;
        }
        sum = sum + val as i128;
        let count: usize = match seen.get(&val) {
            Some(n) => *n + 1,
            None => 1,
        };
        seen.insert(val, count);
        if count > 0 && mode >= 0 && count > mode as usize || mode < 0 {
            mode = val;
        }
        proof {
            assert forall|v: i32| seen@.contains_key(v) implies seen@[v] == occurrences(now, v) by {
                if v != val {
                    assert(occurrences(now, v) == occurrences(sooner, v));
                }
            }
            assert forall|v: i32| !seen@.contains_key(v) implies occurrences(now, v) == 0 by {
                assert(v != val);
                assert(occurrences(now, v) == occurrences(sooner, v));
            }
        }
        i = i + 1;
    }
    assert(sorted.take(sorted.len() as int) =~= sorted);
    Summary { sum, len: values.len(), median, mode }
}

/// Puts the numbers in ascending order and sums them up: their sum, the
/// one in the middle and the one that the tally settles on.
pub fn summarize(values: Vec<i32>) -> (summary: Summary)
    ensures
        summary.len == values@.len(),
        summary.sum == total(ascending(values@)),
        summary.median == middle(ascending(values@)),
        summary.mode == settled(ascending(values@)),
        in_order(ascending(values@)),
        ascending(values@).to_multiset() == values@.to_multiset(),
{
    let mut sorted = values;
    sort_numbers(&mut sorted);
    proof {
        lemma_ascending_is(values@, sorted@);
    }
    tally(&sorted)
}

/// The summary of a list of thirteen numbers, ready to be shown.
pub fn run() -> (summary: Summary)
    ensures
        summary.len == 13,
        summary.sum == total(ascending(seq![1i32, 2, 3, 4, 1, 2, 3, 2, 3, 1, 1, 1, 35])),
        summary.median == middle(ascending(seq![1i32, 2, 3, 4, 1, 2, 3, 2, 3, 1, 1, 1, 35])),
        summary.mode == settled(ascending(seq![1i32, 2, 3, 4, 1, 2, 3, 2, 3, 1, 1, 1, 35])),
{
    let values: Vec<i32> = vec![1, 2, 3, 4, 1, 2, 3, 2, 3, 1, 1, 1, 35];
    assert(values@ =~= seq![1i32, 2, 3, 4, 1, 2, 3, 2, 3, 1, 1, 1, 35]);
    summarize(values)
}

} // verus!
