//! What the best move is, and which moves are popular, in terms of the visits of the moves.

use crate::best::{at_least, grown, is_pick, is_share, lemma_at_least, running, UNPOPULAR};
use crate::double::Double;
use crate::model::{Tree, MOVES};
use crate::percentile::{
    counts_of, cut, descending, lemma_cut, lemma_descending, lemma_reaches, lemma_sum_at_least,
    reaches, sum, sum_below, upto,
};
use crate::rank::{place, ranked};
use crate::single::Single;
use vstd::prelude::*;

verus! {

/// The sum of those of the given counts that are at least `b`.
pub open spec fn sum_from(counts: Seq<i32>, b: int) -> int
    decreases counts.len(),
{
    if counts.len() == 0 {
        0
    } else {
        sum_from(counts.drop_last(), b) + if counts.last() >= b {
            counts.last() as int
        } else {
            0
        }
    }
}

impl Tree {
    /// The visits, in all, of those of the moves below `n` that have at least `b` of them.
    pub open spec fn visits_from(self, n: nat, b: int) -> int
        decreases n,
    {
        if n == 0 {
            0
        } else {
            self.visits_from((n - 1) as nat, b) + if self.edge(n - 1).count >= b {
                self.edge(n - 1).count as int
            } else {
                0
            }
        }
    }
}

/// A sum over two lists is that over the one and that over the other, and a sum over a single
/// count is the count.
pub proof fn law_sum(a: Seq<i32>, b: Seq<i32>, x: i32)
    ensures
        sum(a + b) == sum(a) + sum(b),
        sum(seq![x]) == x,
        sum(Seq::empty()) == 0,
    decreases b.len(),
{
    reveal_with_fuel(sum, 2);
    assert(seq![x].drop_last() =~= Seq::empty());
    if b.len() == 0 {
        assert(a + b =~= a);
    } else {
        law_sum(a, b.drop_last(), x);
        assert((a + b).drop_last() =~= a + b.drop_last());
    }
}

/// The counts below a limit and those from it on make up all of the sum.
pub proof fn law_sum_below(counts: Seq<i32>, limit: i32)
    ensures
        sum_below(counts, limit) + sum_from(counts, limit as int) == sum(counts),
    decreases counts.len(),
{
    if counts.len() > 0 {
        law_sum_below(counts.drop_last(), limit);
    }
}

proof fn lemma_place_from(counts: Seq<i32>, moves: Seq<usize>, m: usize, b: int)
    ensures
        sum_from(counts_of(counts, place(counts, moves, m)), b) == sum_from(
            counts_of(counts, moves),
            b,
        ) + if counts[m as int] >= b {
            counts[m as int] as int
        } else {
            0
        },
    decreases moves.len(),
{
    let values = counts_of(counts, moves);
    let placed = counts_of(counts, place(counts, moves, m));
    if moves.len() == 0 || counts[moves.last() as int] >= counts[m as int] {
        assert(placed.drop_last() =~= values);
    } else {
        let init = moves.drop_last();
        lemma_place_from(counts, init, m, b);
        assert(placed.drop_last() =~= counts_of(counts, place(counts, init, m)));
        assert(values.drop_last() =~= counts_of(counts, init));
    }
}

proof fn lemma_ranked_from(counts: Seq<i32>, n: nat, b: int)
    requires
        n <= counts.len() <= usize::MAX,
    ensures
        sum_from(counts_of(counts, ranked(counts, upto(n))), b) == sum_from(
            counts.take(n as int),
            b,
        ),
    decreases n,
{
    if n == 0 {
        assert(counts_of(counts, ranked(counts, upto(n))) =~= counts.take(0));
    } else {
        let m = (n - 1) as nat;
        lemma_ranked_from(counts, m, b);
        assert(upto(n).drop_last() =~= upto(m));
        lemma_place_from(counts, ranked(counts, upto(m)), m as usize, b);
        assert(counts.take(n as int).drop_last() =~= counts.take(m as int));
    }
}

/// Sorting changes no sum of the counts from some limit on.
proof fn lemma_sorted_from(counts: Seq<i32>, b: int)
    requires
        counts.len() <= usize::MAX,
    ensures
        sum_from(descending(counts), b) == sum_from(counts, b),
{
    lemma_ranked_from(counts, counts.len(), b);
    assert(counts.take(counts.len() as int) =~= counts);
}

/// A list of counts none of which is as large as `b`.
proof fn lemma_from_small(counts: Seq<i32>, j: int, b: int)
    requires
        0 <= j <= counts.len(),
        forall|i: int| j <= i < counts.len() ==> #[trigger] counts[i] < b,
    ensures
        sum_from(counts, b) == sum_from(counts.take(j), b),
    decreases counts.len() - j,
{
    if j == counts.len() {
        assert(counts.take(j) =~= counts);
    } else {
        let init = counts.drop_last();
        assert forall|i: int| j <= i < init.len() implies #[trigger] init[i] < b by {
            assert(init[i] == counts[i]);
        }
        lemma_from_small(init, j, b);
        assert(counts[counts.len() - 1] < b);
        assert(init.take(j) =~= counts.take(j));
    }
}

/// A list of counts that are all at least `least`: what exceeds the larger ones is a multiple of
/// `least`.
proof fn lemma_prefix(counts: Seq<i32>, least: i32) -> (m: int)
    requires
        forall|i: int| 0 <= i < counts.len() ==> #[trigger] counts[i] >= least,
    ensures
        m >= 0,
        counts.len() > 0 && counts.last() == least ==> m >= 1,
        sum(counts) == sum_from(counts, least + 1) + m * least,
        sum(counts) == sum_from(counts, least as int),
    decreases counts.len(),
{
    if counts.len() == 0 {
        assert(0 * least == 0);
        0
    } else {
        let init = counts.drop_last();
        assert forall|i: int| 0 <= i < init.len() implies #[trigger] init[i] >= least by {
            assert(init[i] == counts[i]);
        }
        let m = lemma_prefix(init, least);
        assert(counts[counts.len() - 1] >= least);
        if counts.last() == least {
            assert((m + 1) * least == m * least + least) by (nonlinear_arith);
            m + 1
        } else {
            m
        }
    }
}

/// Counts from a limit on that is not negative only add to a sum.
proof fn lemma_from_take(counts: Seq<i32>, j: int, b: int)
    requires
        0 <= j <= counts.len(),
        b >= 0,
    ensures
        sum_from(counts.take(j), b) <= sum_from(counts, b),
    decreases counts.len() - j,
{
    if j == counts.len() {
        assert(counts.take(j) =~= counts);
    } else {
        let init = counts.drop_last();
        lemma_from_take(init, j, b);
        assert(init.take(j) =~= counts.take(j));
    }
}

/// The weighted percentile: it is one of the elements, those that are as large make up all but
/// `n` percent of the total, and those that are larger do not. Down to it, the elements that
/// are larger and the fewest as large ones that are needed are summed up.
pub proof fn law_percentile(array: Seq<i32>, total: int, n: int)
    requires
        array.len() <= usize::MAX,
        exists|k: int| reaches(descending(array), total, n, k),
    ensures
        ({
            let k = cut(descending(array), total, n);
            let val = descending(array)[k];
            let weight = sum(descending(array).take(k + 1));
            &&& array.contains(val)
            &&& val >= 0 ==> 100 * sum_from(array, val as int) >= (100 - n) * total
            &&& (exists|i: int| 0 <= i < array.len() && #[trigger] array[i] > val) ==> 100
                * sum_from(array, val + 1) < (100 - n) * total
            &&& 100 * weight >= (100 - n) * total
            &&& weight == val || 100 * (weight - val) < (100 - n) * total
            &&& exists|m: int| m >= 1 && weight == sum_from(array, val + 1) + #[trigger] (m * val)
            &&& val >= 0 ==> weight <= sum_from(array, val as int)
        }),
{
    broadcast use vstd::seq_lib::group_to_multiset_ensures;

    let sorted = descending(array);
    let k = cut(sorted, total, n);
    assert(reaches(sorted, total, n, k));
    let val = sorted[k];
    lemma_descending(array);
    assert(array.contains(val)) by {
        assert(sorted.to_multiset().count(sorted[k]) > 0);
        assert(array.to_multiset().count(sorted[k]) > 0);
    }
    lemma_sorted_from(array, val as int);
    lemma_sorted_from(array, val + 1);
    let top = sorted.take(k + 1);
    assert forall|i: int| 0 <= i < top.len() implies #[trigger] top[i] >= val by {
        assert(sorted[i] >= sorted[k]);
    }
    assert(top.last() == val);
    let m = lemma_prefix(top, val);
    assert forall|i: int| k + 1 <= i < sorted.len() implies #[trigger] sorted[i] < val + 1 by {
        assert(sorted[k] >= sorted[i]);
    }
    lemma_from_small(sorted, k + 1, val + 1);
    assert(sum(top) == sum_from(array, val + 1) + m * val);
    assert(top.drop_last() =~= sorted.take(k));
    if k > 0 {
        assert(sorted.take((k - 1) + 1) == sorted.take(k));
    } else {
        assert(sum(sorted.take(0)) == 0);
    }
    if val >= 0 {
        lemma_from_take(sorted, k + 1, val as int);
    }
    if exists|i: int| 0 <= i < array.len() && #[trigger] array[i] > val {
        let i = choose|i: int| 0 <= i < array.len() && #[trigger] array[i] > val;
        assert(array.to_multiset().count(array[i]) > 0);
        assert(sorted.to_multiset().count(array[i]) > 0);
        assert(sorted.contains(array[i]));
        let p = choose|p: int| 0 <= p < sorted.len() && sorted[p] == array[i];
        if p >= k {
            assert(sorted[k] >= sorted[p]);
        }
        let j = lemma_first_at_most(sorted, val, k);
        lemma_from_small(sorted, j, val + 1);
        let large = sorted.take(j);
        assert forall|i: int| 0 <= i < large.len() implies #[trigger] large[i] >= val + 1 by {
            assert(large[i] == sorted[i]);
        }
        let _ = lemma_prefix(large, (val + 1) as i32);
        assert(p < j) by {
            if p >= j {
                assert(sorted[j] >= sorted[p]);
            }
        }
        assert(sorted.take((j - 1) + 1) == sorted.take(j));
    }
}

/// Where the elements that are larger than `val` end.
proof fn lemma_first_at_most(sorted: Seq<i32>, val: i32, k: int) -> (j: int)
    requires
        0 <= k < sorted.len(),
        sorted[k] == val,
        val < i32::MAX,
        forall|i: int, l: int| 0 <= i <= l < sorted.len() ==> sorted[i] >= sorted[l],
    ensures
        0 <= j <= k,
        sorted[j] == val,
        forall|i: int| 0 <= i < j ==> #[trigger] sorted[i] > val,
        forall|i: int| j <= i < sorted.len() ==> #[trigger] sorted[i] < val + 1,
    decreases k,
{
    if k > 0 && sorted[k - 1] == val {
        lemma_first_at_most(sorted, val, k - 1)
    } else {
        assert forall|i: int| 0 <= i < k implies #[trigger] sorted[i] > val by {
            assert(sorted[i] >= sorted[k - 1]);
            assert(sorted[k - 1] >= sorted[k]);
        }
        assert forall|i: int| k <= i < sorted.len() implies #[trigger] sorted[i] < val + 1 by {
            assert(sorted[k] >= sorted[i]);
        }
        k
    }
}

/// The visits of the moves from some limit on, taken from the list of the visited ones.
proof fn lemma_popularity_from(tree: Tree, n: nat, b: int)
    requires
        n <= MOVES,
        b >= 1,
    ensures
        sum_from(counts_of(tree.counts(), at_least(tree.counts(), 1, n)), b) == tree.visits_from(
            n,
            b,
        ),
    decreases n,
{
    let counts = tree.counts();
    let moves = at_least(counts, 1, n);
    let values = counts_of(counts, moves);
    if n > 0 {
        let m = (n - 1) as nat;
        lemma_popularity_from(tree, m, b);
        let before = counts_of(counts, at_least(counts, 1, m));
        if counts[n - 1] >= 1 {
            assert(values.drop_last() =~= before);
        }
    }
}

/// A list of counts that are all at least one.
proof fn lemma_all_from(values: Seq<i32>)
    requires
        forall|k: int| 0 <= k < values.len() ==> #[trigger] values[k] >= 1,
    ensures
        sum_from(values, 1) == sum(values),
    decreases values.len(),
{
    if values.len() > 0 {
        let init = values.drop_last();
        assert forall|k: int| 0 <= k < init.len() implies #[trigger] init[k] >= 1 by {
            assert(init[k] == values[k]);
        }
        lemma_all_from(init);
        assert(values[values.len() - 1] >= 1);
    }
}

/// The visits that are shared out are those of all moves that were visited.
pub proof fn law_popularity(tree: Tree)
    ensures
        sum(tree.popularity()) == tree.visits_from(MOVES as nat, 1),
        forall|k: int| 0 <= k < tree.popularity().len() ==> #[trigger] tree.popularity()[k] >= 1,
{
    let counts = tree.counts();
    let moves = at_least(counts, 1, MOVES as nat);
    lemma_at_least(counts, 1, MOVES as nat);
    lemma_popularity_from(tree, MOVES as nat, 1);
    assert forall|k: int| 0 <= k < tree.popularity().len() implies #[trigger] tree.popularity()[k]
        >= 1 by {
        assert(counts[moves[k] as int] >= 1);
    }
    lemma_all_from(tree.popularity());
}

/// The popular moves are all those with at least as many visits as some visited move, such
/// that they have at least ninety percent of all visits, and those with more visits do not.
/// They come in ascending order. Their weights are for the visits of the move and for those
/// of the most visited moves that make up the ninety percent.
pub proof fn law_popular<G: Fn(Double, i32, i64, Single) -> Double>(
    tree: Tree,
    grow: G,
    temperature: Single,
) -> (least: i32)
    requires
        tree.is_visited(),
    ensures
        least >= 1,
        exists|i: int| 0 <= i < MOVES && (#[trigger] tree.edge(i)).count == least,
        forall|i: int|
            0 <= i < MOVES ==> ((#[trigger] tree.edge(i)).count >= least
                <==> tree.popular().contains(i as usize)),
        forall|k: int| 0 <= k < tree.popular().len() ==> #[trigger] tree.popular()[k] < MOVES,
        forall|j: int, k: int|
            0 <= j < k < tree.popular().len() ==> #[trigger] tree.popular()[j]
                < #[trigger] tree.popular()[k],
        100 * tree.visits_from(MOVES as nat, least as int) >= 90 * tree.visits_from(
            MOVES as nat,
            1,
        ),
        100 * tree.visits_from(MOVES as nat, least + 1) < 90 * tree.visits_from(MOVES as nat, 1),
        100 * tree.popular_total() >= 90 * tree.visits_from(MOVES as nat, 1),
        100 * (tree.popular_total() - least) < 90 * tree.visits_from(MOVES as nat, 1),
        exists|m: int|
            m >= 1 && tree.popular_total() == tree.visits_from(MOVES as nat, least + 1)
                + #[trigger] (m * least),
        tree.popular_total() <= tree.visits_from(MOVES as nat, least as int),
        tree.popular_sums(grow, temperature).len() == tree.popular().len(),
        forall|k: int|
            0 <= k < tree.popular().len() ==> #[trigger] tree.popular_sums(grow, temperature)[k]
                == grown(
                grow,
                if k == 0 {
                    Double { bits: 0 }
                } else {
                    tree.popular_sums(grow, temperature)[k - 1]
                },
                tree.edge(tree.popular()[k] as int).count,
                tree.popular_total() as i64,
                temperature,
            ),
{
    let counts = tree.counts();
    let visited = at_least(counts, 1, MOVES as nat);
    let values = tree.popularity();
    let i = choose|i: int| 0 <= i < MOVES && (#[trigger] tree.edge(i)).count > 0;
    lemma_at_least(counts, 1, MOVES as nat);
    law_popularity(tree);
    assert(counts[i] >= 1);
    assert(visited.contains(i as usize));
    assert(values.len() > 0);
    lemma_sum_at_least(values, 0);
    lemma_descending(values);
    lemma_reaches(descending(values), UNPOPULAR as int);
    let total = sum(values);
    let k = tree.popularity_cut();
    let least = descending(values)[k];
    law_percentile(values, total, UNPOPULAR as int);
    let p = choose|p: int| 0 <= p < values.len() && values[p] == least;
    assert(values[p] >= 1);
    assert(tree.edge(visited[p] as int).count == least);
    lemma_popularity_from(tree, MOVES as nat, least as int);
    lemma_popularity_from(tree, MOVES as nat, least + 1);
    lemma_at_least(counts, least, MOVES as nat);
    assert forall|i: int| 0 <= i < MOVES implies ((#[trigger] tree.edge(i)).count >= least
        <==> tree.popular().contains(i as usize)) by {
        assert(counts[i] == tree.edge(i).count);
        if tree.popular().contains(i as usize) {
            let q = choose|q: int|
                0 <= q < tree.popular().len() && tree.popular()[q] == i as usize;
            assert(counts[tree.popular()[q] as int] >= least);
        }
    }
    if !(exists|i: int| 0 <= i < values.len() && #[trigger] values[i] > least) {
        lemma_none_from(values, least + 1);
    }
    let picked = counts_of(counts, tree.popular());
    lemma_running_steps(grow, picked, tree.popular_total() as i64, temperature);
    assert forall|k: int| 0 <= k < tree.popular().len() implies picked[k] == #[trigger] tree.edge(
        tree.popular()[k] as int,
    ).count by {}
    least
}

/// A list of counts that are all below a limit.
proof fn lemma_none_from(values: Seq<i32>, b: int)
    requires
        forall|k: int| 0 <= k < values.len() ==> #[trigger] values[k] < b,
    ensures
        sum_from(values, b) == 0,
{
    lemma_from_small(values, 0, b);
    assert(values.take(0) =~= Seq::empty());
}

/// Each sum of weights comes from the one before it.
proof fn lemma_running_steps<G: Fn(Double, i32, i64, Single) -> Double>(
    grow: G,
    counts: Seq<i32>,
    total: i64,
    temperature: Single,
)
    ensures
        running(grow, counts, total, temperature).len() == counts.len(),
        forall|k: int|
            0 <= k < counts.len() ==> #[trigger] running(grow, counts, total, temperature)[k]
                == grown(
                grow,
                if k == 0 {
                    Double { bits: 0 }
                } else {
                    running(grow, counts, total, temperature)[k - 1]
                },
                counts[k],
                total,
                temperature,
            ),
    decreases counts.len(),
{
    if counts.len() > 0 {
        lemma_running_steps(grow, counts.drop_last(), total, temperature);
        let before = running(grow, counts.drop_last(), total, temperature);
        let all = running(grow, counts, total, temperature);
        assert forall|k: int| 0 <= k < counts.len() implies #[trigger] all[k] == grown(
            grow,
            if k == 0 {
                Double { bits: 0 }
            } else {
                all[k - 1]
            },
            counts[k],
            total,
            temperature,
        ) by {
            if k < before.len() {
                assert(all[k] == before[k]);
                if k > 0 {
                    assert(all[k - 1] == before[k - 1]);
                }
            } else if k > 0 {
                assert(all[k - 1] == before[k - 1]);
            }
        }
    }
}

/// One move alone decides exactly if it has at least ninety percent of all visits.
pub proof fn law_decided(tree: Tree)
    ensures
        tree.is_visited() && tree.popularity_cut() == 0 <==> exists|i: int|
            0 <= i < MOVES && (#[trigger] tree.edge(i)).count > 0 && 100 * tree.edge(i).count >= 90
                * tree.visits_from(MOVES as nat, 1),
{
    broadcast use vstd::seq_lib::group_to_multiset_ensures;

    if tree.is_visited() {
        let counts = tree.counts();
        let visited = at_least(counts, 1, MOVES as nat);
        let values = tree.popularity();
        let sorted = descending(values);
        let i = choose|i: int| 0 <= i < MOVES && (#[trigger] tree.edge(i)).count > 0;
        lemma_at_least(counts, 1, MOVES as nat);
        law_popularity(tree);
        assert(counts[i] >= 1);
        assert(visited.contains(i as usize));
        lemma_sum_at_least(values, 0);
        lemma_descending(values);
        lemma_reaches(sorted, UNPOPULAR as int);
        let total = sum(values);
        assert(sorted.take(1).drop_last() =~= Seq::empty());
        assert(sum(sorted.take(1).drop_last()) == 0);
        assert(sum(sorted.take(0int + 1)) == sorted[0]);
        assert(values.contains(sorted[0])) by {
            assert(sorted.to_multiset().count(sorted[0]) > 0);
            assert(values.to_multiset().count(sorted[0]) > 0);
        }
        let p = choose|p: int| 0 <= p < values.len() && values[p] == sorted[0];
        assert(values[p] >= 1);
        if tree.popularity_cut() == 0 {
            assert(tree.edge(visited[p] as int).count == sorted[0]);
        }
        if exists|i: int|
            0 <= i < MOVES && (#[trigger] tree.edge(i)).count > 0 && 100 * tree.edge(i).count >= 90
                * tree.visits_from(MOVES as nat, 1) {
            let j = choose|j: int|
                0 <= j < MOVES && (#[trigger] tree.edge(j)).count > 0 && 100 * tree.edge(j).count
                    >= 90 * tree.visits_from(MOVES as nat, 1);
            assert(counts[j] >= 1);
            assert(visited.contains(j as usize));
            let q = choose|q: int| 0 <= q < visited.len() && visited[q] == j as usize;
            assert(values[q] == tree.edge(j).count);
            assert(values.to_multiset().count(values[q]) > 0);
            assert(sorted.to_multiset().count(values[q]) > 0);
            assert(sorted.contains(values[q]));
            let r = choose|r: int| 0 <= r < sorted.len() && sorted[r] == values[q];
            assert(sorted[0] >= sorted[r]);
            assert(reaches(sorted, total, UNPOPULAR as int, 0));
            lemma_cut(sorted, total, UNPOPULAR as int, 0);
        }
    }
}

/// The best move has at least as many visits as any other, and at least as large a prior as
/// any other with that many visits; of several such moves it is the last one.
pub proof fn law_most_visited(tree: Tree, r: int)
    requires
        tree.is_best(r),
    ensures
        0 <= r < MOVES,
        forall|j: int|
            0 <= j < MOVES ==> {
                &&& (#[trigger] tree.edge(j)).count <= tree.edge(r).count
                &&& tree.edge(j).count == tree.edge(r).count ==> tree.prior[j].rank_spec()
                    <= tree.prior[r].rank_spec()
                &&& tree.edge(j).count == tree.edge(r).count && tree.prior[j].rank_spec()
                    == tree.prior[r].rank_spec() ==> j <= r
            },
{
    assert forall|j: int| 0 <= j < MOVES implies {
        &&& (#[trigger] tree.edge(j)).count <= tree.edge(r).count
        &&& tree.edge(j).count == tree.edge(r).count ==> tree.prior[j].rank_spec()
            <= tree.prior[r].rank_spec()
        &&& tree.edge(j).count == tree.edge(r).count && tree.prior[j].rank_spec()
            == tree.prior[r].rank_spec() ==> j <= r
    } by {
        assert(tree.prefers(r, j));
        if j > r {
            assert(!tree.prefers(j, r));
        }
    }
}

/// The order of sums of weights in terms of their bit patterns: the sign bit makes a number
/// negative, two numbers that are not negative are ordered as their patterns are, and two
/// negative ones the other way round. What is not a number is not comparable, and a sum below
/// the smallest normal number is too small to draw from.
pub proof fn law_sum_order(a: Double, b: Double)
    ensures
        a.bits < 0x8000_0000_0000_0000 && b.bits < 0x8000_0000_0000_0000 ==> (a.key_spec()
            < b.key_spec() <==> a.bits < b.bits),
        a.bits > 0x8000_0000_0000_0000 && b.bits > 0x8000_0000_0000_0000 ==> (a.key_spec()
            < b.key_spec() <==> a.bits > b.bits),
        a.bits > 0x8000_0000_0000_0000 && b.bits < 0x8000_0000_0000_0000 ==> a.key_spec()
            < b.key_spec(),
        a.bits == 0x8000_0000_0000_0000 ==> a.key_spec() == 0,
        a.is_nan_spec() <==> 0x7ff0_0000_0000_0000 < a.bits < 0x8000_0000_0000_0000
            || 0xfff0_0000_0000_0000 < a.bits,
        a.at_most_spec(b) <==> !a.is_nan_spec() && !b.is_nan_spec() && !(b.key_spec()
            < a.key_spec()),
        a.is_tiny_spec() <==> a.bits < 0x0010_0000_0000_0000 || 0x8000_0000_0000_0000 <= a.bits
            <= 0xfff0_0000_0000_0000,
        a.is_weight() <==> a.bits < 0x7ff0_0000_0000_0000 || a.bits == 0x8000_0000_0000_0000,
        Double::zero_spec().bits == 0,
{
}

/// What is drawn picks the first sum that it does not exceed, and where the sums ascend, it
/// exceeds the one before and picks no other.
pub proof fn law_pick(sums: Seq<Double>, threshold: Double, k: int, j: int)
    requires
        is_pick(sums, threshold, k),
    ensures
        0 <= k < sums.len(),
        !threshold.is_nan_spec() && !sums[k].is_nan_spec(),
        threshold.key_spec() <= sums[k].key_spec(),
        0 <= j < k && !sums[j].is_nan_spec() ==> sums[j].key_spec() < threshold.key_spec(),
        is_pick(sums, threshold, j) ==> j == k,
        k > 0 && is_share(sums, threshold, k) ==> sums[k - 1].key_spec() < threshold.key_spec(),
{
}

/// What is returned as the best move. At a temperature of at most 0.09 no move has more visits,
/// and none with as many visits has a larger prior. Above that it is the popular move up to
/// which, and not before which, the weights add up to what was drawn for the sum of them all.
/// Either way its average value is returned with it.
pub proof fn law_outcome<
    G: Fn(Double, i32, i64, Single) -> Double,
    D: FnOnce(Double) -> Double,
>(tree: Tree, temperature: Single, grow: G, draw: D, r: (Single, usize))
    requires
        tree.is_outcome(temperature, grow, draw, r),
    ensures
        r.1 < MOVES,
        r.0 == tree.edge(r.1 as int).value,
        !temperature.is_nan_spec() && temperature.key_spec() <= 0x3db8_51ec ==> forall|j: int|
            0 <= j < MOVES ==> {
                &&& (#[trigger] tree.edge(j)).count <= tree.edge(r.1 as int).count
                &&& tree.edge(j).count == tree.edge(r.1 as int).count
                    ==> tree.prior[j].rank_spec() <= tree.prior[r.1 as int].rank_spec()
                &&& tree.edge(j).count == tree.edge(r.1 as int).count
                    && tree.prior[j].rank_spec() == tree.prior[r.1 as int].rank_spec() ==> j <= r.1
            },
        temperature.is_nan_spec() || temperature.key_spec() > 0x3db8_51ec ==> {
            let sums = tree.popular_sums(grow, temperature);
            exists|threshold: Double, k: int|
                {
                    &&& #[trigger] call_ensures(draw, (sums.last(),), threshold)
                    &&& 0 <= k < sums.len()
                    &&& r.1 == #[trigger] tree.popular()[k]
                    &&& threshold.key_spec() <= sums[k].key_spec()
                    &&& k > 0 ==> sums[k - 1].key_spec() < threshold.key_spec()
                }
        },
{
    if temperature.is_greedy() {
        law_most_visited(tree, r.1 as int);
    } else {
        let sums = tree.popular_sums(grow, temperature);
        let (threshold, k) = choose|threshold: Double, k: int|
            {
                &&& #[trigger] call_ensures(draw, (sums.last(),), threshold)
                &&& #[trigger] is_pick(sums, threshold, k)
                &&& is_share(sums, threshold, k)
                &&& r.1 == tree.popular()[k]
                &&& r.0 == tree.edge(r.1 as int).value
            };
        assert(r.1 == tree.popular()[k]);
    }
}

/// A move with all of the visits is the best one at any temperature.
pub proof fn law_only_move<
    G: Fn(Double, i32, i64, Single) -> Double,
    D: FnOnce(Double) -> Double,
>(tree: Tree, only: int, temperature: Single, grow: G, draw: D, r: (Single, usize))
    requires
        0 <= only < MOVES,
        tree.edge(only).count > 0,
        forall|j: int| 0 <= j < MOVES && j != only ==> (#[trigger] tree.edge(j)).count <= 0,
        tree.is_outcome(temperature, grow, draw, r),
    ensures
        r.1 == only,
{
    assert(tree.is_visited());
    assert(tree.edge(r.1 as int).count > 0);
}

} // verus!
