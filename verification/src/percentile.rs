use crate::rank::{lemma_ranked, place, rank, ranked};
use vstd::prelude::*;

verus! {

/// The sum of the given counts.
pub open spec fn sum(counts: Seq<i32>) -> int
    decreases counts.len(),
{
    if counts.len() == 0 {
        0
    } else {
        sum(counts.drop_last()) + counts.last()
    }
}

/// The sum of the counts that are smaller than the given one.
pub open spec fn sum_below(counts: Seq<i32>, limit: i32) -> int
    decreases counts.len(),
{
    if counts.len() == 0 {
        0
    } else if counts.last() < limit {
        sum_below(counts.drop_last(), limit) + counts.last()
    } else {
        sum_below(counts.drop_last(), limit)
    }
}

/// The numbers from zero up to, and without, `n`.
pub open spec fn upto(n: nat) -> Seq<usize> {
    Seq::new(n, |i: int| i as usize)
}

/// The counts of the given moves.
pub open spec fn counts_of(counts: Seq<i32>, moves: Seq<usize>) -> Seq<i32> {
    Seq::new(moves.len(), |k: int| counts[moves[k] as int])
}

/// The given counts, largest first.
pub open spec fn descending(counts: Seq<i32>) -> Seq<i32> {
    counts_of(counts, ranked(counts, upto(counts.len())))
}

/// Whether the first `k + 1` of the given counts are the fewest that make up all but `n`
/// percent of the total.
pub open spec fn reaches(counts: Seq<i32>, total: int, n: int, k: int) -> bool {
    &&& 0 <= k < counts.len()
    &&& 100 * sum(counts.take(k + 1)) >= (100 - n) * total
    &&& forall|j: int|
        0 <= j < k ==> 100 * sum(#[trigger] counts.take(j + 1)) < (100 - n) * total
}

/// The place of the count with which all but `n` percent of the total is made up.
pub open spec fn cut(counts: Seq<i32>, total: int, n: int) -> int {
    choose|k: int| reaches(counts, total, n, k)
}

/// All but `n` percent of the total is made up at one place only.
pub proof fn lemma_cut(counts: Seq<i32>, total: int, n: int, k: int)
    requires
        reaches(counts, total, n, k),
    ensures
        cut(counts, total, n) == k,
{
    let other = cut(counts, total, n);
    assert(reaches(counts, total, n, other));
    assert(counts.take(other + 1) == counts.take(other + 1));
    assert(counts.take(k + 1) == counts.take(k + 1));
}

/// A sum over counts, split behind one of them.
proof fn lemma_sum_step(counts: Seq<i32>, k: int)
    requires
        0 <= k < counts.len(),
    ensures
        sum(counts.take(k + 1)) == sum(counts.take(k)) + counts[k],
{
    assert(counts.take(k + 1).drop_last() =~= counts.take(k));
}

/// From a place before which it is not made up, all but `n` percent of the total is made up
/// sooner or later.
proof fn lemma_reaches_from(counts: Seq<i32>, n: int, k: int)
    requires
        sum(counts) >= 0,
        0 <= n <= 100,
        0 <= k < counts.len(),
        forall|j: int|
            0 <= j < k ==> 100 * sum(#[trigger] counts.take(j + 1)) < (100 - n) * sum(counts),
    ensures
        exists|i: int| reaches(counts, sum(counts), n, i),
    decreases counts.len() - k,
{
    let total = sum(counts);
    if 100 * sum(counts.take(k + 1)) >= (100 - n) * total {
        assert(reaches(counts, total, n, k));
    } else {
        if k == counts.len() - 1 {
            assert(counts.take(k + 1) =~= counts);
            assert(100 * total >= (100 - n) * total) by (nonlinear_arith)
                requires
                    total >= 0,
                    n >= 0,
            ;
        }
        lemma_reaches_from(counts, n, k + 1);
    }
}

/// All but `n` percent of the total is made up somewhere.
pub proof fn lemma_reaches(counts: Seq<i32>, n: int)
    requires
        counts.len() > 0,
        sum(counts) >= 0,
        0 <= n <= 100,
    ensures
        reaches(counts, sum(counts), n, cut(counts, sum(counts), n)),
{
    lemma_reaches_from(counts, n, 0);
}

/// How large, and how small, a sum can be.
pub proof fn lemma_sum_bounds(counts: Seq<i32>)
    ensures
        i32::MIN * counts.len() <= sum(counts) <= i32::MAX * counts.len(),
    decreases counts.len(),
{
    if counts.len() > 0 {
        lemma_sum_bounds(counts.drop_last());
        assert(i32::MAX * (counts.len() - 1) + i32::MAX == i32::MAX * counts.len())
            by (nonlinear_arith);
        assert(i32::MIN * (counts.len() - 1) + i32::MIN == i32::MIN * counts.len())
            by (nonlinear_arith);
    }
}

/// A sum of no more than so many counts fits.
proof fn lemma_bounds(k: int)
    requires
        0 <= k <= 0x7fff_ffff,
    ensures
        i32::MIN * k >= i32::MIN * 0x7fff_ffff,
        i32::MAX * k <= i32::MAX * 0x7fff_ffff,
{
    assert(i32::MIN * k >= i32::MIN * 0x7fff_ffff) by (nonlinear_arith)
        requires
            k <= 0x7fff_ffff,
    ;
    assert(i32::MAX * k <= i32::MAX * 0x7fff_ffff) by (nonlinear_arith)
        requires
            k <= 0x7fff_ffff,
    ;
}

/// How large, and how small, the sum of the counts below another one can be.
proof fn lemma_sum_below_bounds(counts: Seq<i32>, limit: i32)
    ensures
        i32::MIN * counts.len() <= sum_below(counts, limit) <= i32::MAX * counts.len(),
    decreases counts.len(),
{
    if counts.len() > 0 {
        lemma_sum_below_bounds(counts.drop_last(), limit);
        assert(i32::MAX * (counts.len() - 1) + i32::MAX == i32::MAX * counts.len())
            by (nonlinear_arith);
        assert(i32::MIN * (counts.len() - 1) + i32::MIN == i32::MIN * counts.len())
            by (nonlinear_arith);
    }
}

/// A sum of counts none of which is negative is at least as large as each of them.
pub proof fn lemma_sum_at_least(counts: Seq<i32>, i: int)
    requires
        forall|k: int| 0 <= k < counts.len() ==> #[trigger] counts[k] >= 0,
        0 <= i < counts.len(),
    ensures
        sum(counts) >= counts[i],
    decreases counts.len(),
{
    let init = counts.drop_last();
    assert forall|k: int| 0 <= k < init.len() implies #[trigger] init[k] >= 0 by {
        assert(init[k] == counts[k]);
    }
    assert(counts[counts.len() - 1] >= 0);
    if i < init.len() {
        assert(init[i] == counts[i]);
        lemma_sum_at_least(init, i);
    } else if init.len() > 0 {
        assert(init[0] >= 0);
        lemma_sum_at_least(init, 0);
    } else {
        assert(sum(init) == 0);
    }
}

/// Returns the sum of the given counts.
pub fn sum_of(counts: &Vec<i32>) -> (r: i64)
    requires
        counts@.len() <= 0x7fff_ffff,
    ensures
        r == sum(counts@),
{
    let mut total: i64 = 0;
    let mut i: usize = 0;
    while i < counts.len()
        invariant
            i <= counts@.len() <= 0x7fff_ffff,
            total == sum(counts@.take(i as int)),
        decreases counts@.len() - i,
    {
        proof {
            lemma_sum_bounds(counts@.take(i as int));
            lemma_sum_step(counts@, i as int);
            lemma_bounds(i as int);
        }
        total += counts[i] as i64;
        i += 1;
    }
    assert(counts@.take(i as int) =~= counts@);
    total
}

/// Placing one more move among others adds its count to theirs.
proof fn lemma_place_counts(counts: Seq<i32>, moves: Seq<usize>, m: usize)
    ensures
        counts_of(counts, place(counts, moves, m)).to_multiset() == counts_of(
            counts,
            moves,
        ).to_multiset().insert(counts[m as int]),
        sum(counts_of(counts, place(counts, moves, m))) == sum(counts_of(counts, moves))
            + counts[m as int],
    decreases moves.len(),
{
    broadcast use vstd::seq_lib::group_to_multiset_ensures;

    let next = place(counts, moves, m);
    let values = counts_of(counts, moves);
    let placed = counts_of(counts, next);
    if moves.len() == 0 || counts[moves.last() as int] >= counts[m as int] {
        assert(placed =~= values.push(counts[m as int]));
        assert(placed.drop_last() =~= values);
    } else {
        let init = moves.drop_last();
        let last = counts[moves.last() as int];
        lemma_place_counts(counts, init, m);
        let below = counts_of(counts, place(counts, init, m));
        assert(placed =~= below.push(last));
        assert(placed.drop_last() =~= below);
        assert(values =~= counts_of(counts, init).push(last));
        assert(values.drop_last() =~= counts_of(counts, init));
        assert(placed.to_multiset() =~= values.to_multiset().insert(counts[m as int]));
    }
}

/// Ranking some of the moves changes neither their counts nor the sum of these.
proof fn lemma_ranked_counts(counts: Seq<i32>, n: nat)
    requires
        n <= counts.len() <= usize::MAX,
    ensures
        counts_of(counts, ranked(counts, upto(n))).to_multiset() == counts.take(
            n as int,
        ).to_multiset(),
        sum(counts_of(counts, ranked(counts, upto(n)))) == sum(counts.take(n as int)),
    decreases n,
{
    broadcast use vstd::seq_lib::group_to_multiset_ensures;

    if n == 0 {
        assert(counts_of(counts, ranked(counts, upto(n))) =~= counts.take(0));
    } else {
        let m = (n - 1) as nat;
        lemma_ranked_counts(counts, m);
        assert(upto(n).drop_last() =~= upto(m));
        lemma_place_counts(counts, ranked(counts, upto(m)), m as usize);
        lemma_sum_step(counts, m as int);
        assert(counts.take(n as int) =~= counts.take(m as int).push(counts[m as int]));
    }
}

/// Sorting counts changes neither the counts nor their sum, and leaves none behind a smaller
/// one.
pub proof fn lemma_descending(counts: Seq<i32>)
    requires
        counts.len() <= usize::MAX,
    ensures
        descending(counts).len() == counts.len(),
        descending(counts).to_multiset() == counts.to_multiset(),
        sum(descending(counts)) == sum(counts),
        forall|j: int, k: int|
            0 <= j <= k < counts.len() ==> (#[trigger] descending(counts)[j]) >= (
            #[trigger] descending(counts)[k]),
{
    lemma_ranked(counts, upto(counts.len()));
    lemma_ranked_counts(counts, counts.len());
    assert(counts.take(counts.len() as int) =~= counts);
}

/// Steps down from the largest element until all but `n` percent of the total is made up, and
/// returns the element that was reached, the sum of the elements down to it, and its place.
fn step_down(array: &Vec<i32>, total: i64, n: u8) -> (r: (i32, i64, usize))
    requires
        array@.len() <= 0x7fff_ffff,
        exists|k: int| reaches(descending(array@), total as int, n as int, k),
    ensures
        ({
            let sorted = descending(array@);
            let k = cut(sorted, total as int, n as int);
            &&& reaches(sorted, total as int, n as int, k)
            &&& r.0 == sorted[k]
            &&& r.1 == sum(sorted.take(k + 1))
            &&& r.2 == k
        }),
{
    let mut order: Vec<usize> = Vec::new();
    let mut i: usize = 0;
    while i < array.len()
        invariant
            i <= array@.len(),
            order@ == upto(i as nat),
        decreases array@.len() - i,
    {
        order.push(i);
        i += 1;
        assert(order@ =~= upto(i as nat));
    }
    let sorted: Vec<usize> = rank(array, &order);
    let ghost values = descending(array@);
    let ghost last = cut(values, total as int, n as int);
    proof {
        lemma_descending(array@);
    }
    assert(-0x8000_0000_0000_0000_0000 <= (100 - n) * total <= 0x8000_0000_0000_0000_0000)
        by (nonlinear_arith)
        requires
            i64::MIN <= total <= i64::MAX,
            0 <= n <= 255,
    ;
    let goal: i128 = (100 - n as i128) * (total as i128);
    let mut so_far: i64 = 0;
    let mut k: usize = 0;
    loop
        invariant
            k < array@.len() <= 0x7fff_ffff,
            sorted@ == ranked(array@, upto(array@.len())),
            sorted@.len() == array@.len(),
            forall|j: int| 0 <= j < sorted@.len() ==> #[trigger] sorted@[j] < array@.len(),
            values == descending(array@),
            values.len() == array@.len(),
            reaches(values, total as int, n as int, last),
            k <= last,
            goal == (100 - n) * total,
            so_far == sum(values.take(k as int)),
            forall|j: int| 0 <= j < k ==> 100 * sum(#[trigger] values.take(j + 1)) < goal,
        decreases array@.len() - k,
    {
        let val: i32 = array[sorted[k]];
        proof {
            lemma_sum_bounds(values.take(k as int));
            lemma_sum_step(values, k as int);
            lemma_bounds(k as int);
        }
        so_far += val as i64;
        if so_far as i128 * 100 >= goal {
            proof {
                lemma_cut(values, total as int, n as int, k as int);
            }
            return (val, so_far, k);
        }
        proof {
            assert forall|j: int| 0 <= j < k + 1 implies 100 * sum(#[trigger] values.take(j + 1))
                < goal by {
                if j == k {
                    assert(sum(values.take(j + 1)) == so_far);
                }
            }
        }
        k += 1;
    }
}

/// Returns the weighted n:th percentile of the given array, and the sum of all smaller
/// elements.
///
/// # Arguments
///
/// * `array` - the elements
/// * `total` - the weight of all elements, no more than the elements can make up
/// * `n` - how much of the total to leave out, in percent
///
pub fn percentile(array: &Vec<i32>, total: i64, n: u8) -> (r: (i32, i64))
    requires
        array@.len() <= 0x7fff_ffff,
        exists|k: int| reaches(descending(array@), total as int, n as int, k),
    ensures
        ({
            let sorted = descending(array@);
            let k = cut(sorted, total as int, n as int);
            &&& reaches(sorted, total as int, n as int, k)
            &&& r.0 == sorted[k]
        }),
        r.1 == sum_below(array@, r.0),
{
    let (val, _, _) = step_down(array, total, n);
    let mut smaller: i64 = 0;
    let mut i: usize = 0;
    while i < array.len()
        invariant
            i <= array@.len() <= 0x7fff_ffff,
            smaller == sum_below(array@.take(i as int), val),
        decreases array@.len() - i,
    {
        proof {
            lemma_sum_below_bounds(array@.take(i as int), val);
            lemma_bounds(i as int);
            assert(array@.take(i + 1).drop_last() =~= array@.take(i as int));
        }
        if array[i] < val {
            smaller += array[i] as i64;
        }
        i += 1;
    }
    assert(array@.take(i as int) =~= array@);
    (val, smaller)
}

/// Returns the sum of the elements down to the weighted n:th percentile of the given array,
/// where the largest element comes first.
///
/// # Arguments
///
/// * `array` - the elements
/// * `total` - the weight of all elements, no more than the elements can make up
/// * `n` - how much of the total to leave out, in percent
///
pub fn weight_above(array: &Vec<i32>, total: i64, n: u8) -> (r: i64)
    requires
        array@.len() <= 0x7fff_ffff,
        exists|k: int| reaches(descending(array@), total as int, n as int, k),
    ensures
        r == sum(
            descending(array@).take(
                cut(descending(array@), total as int, n as int) + 1,
            ),
        ),
{
    let (_, weight, _) = step_down(array, total, n);
    weight
}

/// Returns whether the largest element alone makes up all but `n` percent of the total.
///
/// # Arguments
///
/// * `array` - the elements
/// * `total` - the weight of all elements, no more than the elements can make up
/// * `n` - how much of the total to leave out, in percent
///
pub fn is_dominated(array: &Vec<i32>, total: i64, n: u8) -> (r: bool)
    requires
        array@.len() <= 0x7fff_ffff,
        exists|k: int| reaches(descending(array@), total as int, n as int, k),
    ensures
        r == (cut(descending(array@), total as int, n as int) == 0),
{
    let (_, _, k) = step_down(array, total, n);
    k == 0
}

} // verus!
