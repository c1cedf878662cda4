use crate::double::Double;
use crate::laws_best::law_most_visited;
use crate::model::{Tree, MOVES};
use crate::node::Node;
use crate::percentile::{
    counts_of, cut, descending, lemma_descending, lemma_reaches, lemma_sum_at_least,
    is_dominated, percentile, reaches, sum, sum_of, weight_above,
};
use crate::single::{Single, GREEDY_BITS};
use rand::Rng;
use vstd::prelude::*;

verus! {

/// How much of the visits goes to moves that are too unpopular to be picked at random, in
/// percent.
pub const UNPOPULAR: u8 = 10;

/// What `grow` returns for the given sum of weights, number of visits of a move, number of
/// visits of the popular moves, and temperature.
pub open spec fn grown<G: Fn(Double, i32, i64, Single) -> Double>(
    grow: G,
    so_far: Double,
    count: i32,
    total: i64,
    temperature: Single,
) -> Double {
    choose|r: Double| call_ensures(grow, (so_far, count, total, temperature), r)
}

/// Whether a weight is to be added: to a sum of weights, for a move that was visited, at a
/// temperature that leaves something to chance. Any power of one is one, so that a move with
/// all of the visits has a weight at a temperature that is not a number, too.
pub open spec fn can_grow(so_far: Double, count: i32, total: i64, temperature: Single) -> bool {
    &&& so_far.is_weight()
    &&& 0 < count <= total
    &&& !temperature.is_greedy()
    &&& temperature.is_nan_spec() ==> count == total
}

/// Whether `grow` is a function of its arguments, defined wherever a weight is to be added,
/// that returns a sum of weights which is not smaller than the one it was given, and not too
/// small to draw from: at a temperature that leaves something to chance no weight is so small.
pub open spec fn is_grow<G: Fn(Double, i32, i64, Single) -> Double>(grow: G) -> bool {
    &&& forall|so_far: Double, count: i32, total: i64, temperature: Single|
        can_grow(so_far, count, total, temperature) ==> #[trigger] call_requires(
            grow,
            (so_far, count, total, temperature),
        )
    &&& forall|so_far: Double, count: i32, total: i64, temperature: Single, r: Double|
        can_grow(so_far, count, total, temperature) && #[trigger] call_ensures(
            grow,
            (so_far, count, total, temperature),
            r,
        ) ==> {
            &&& r == grown(grow, so_far, count, total, temperature)
            &&& r.is_weight()
            &&& so_far.at_most_spec(r)
            &&& !r.is_tiny_spec()
        }
}

/// Whether `draw` accepts any sum of weights that is large enough, and returns a number that
/// is not larger.
pub open spec fn is_draw<D: FnOnce(Double) -> Double>(draw: D) -> bool {
    &&& forall|total: Double|
        total.is_weight() && !total.is_tiny_spec() ==> #[trigger] call_requires(draw, (total,))
    &&& forall|total: Double, r: Double|
        total.is_weight() && !total.is_tiny_spec() && #[trigger] call_ensures(
            draw,
            (total,),
            r,
        ) ==> r.at_most_spec(total)
}

/// Whether no sum is smaller than one before it.
pub open spec fn is_ascending(sums: Seq<Double>) -> bool {
    forall|i: int, j: int|
        0 <= i <= j < sums.len() ==> (#[trigger] sums[i]).at_most_spec(#[trigger] sums[j])
}

/// The moves below `n` with at least `least` visits, in ascending order.
pub open spec fn at_least(counts: Seq<i32>, least: i32, n: nat) -> Seq<usize>
    decreases n,
{
    if n == 0 {
        Seq::empty()
    } else if counts[n - 1] >= least {
        at_least(counts, least, (n - 1) as nat).push((n - 1) as usize)
    } else {
        at_least(counts, least, (n - 1) as nat)
    }
}

/// The sums of the weights of the moves up to each of the given ones.
pub open spec fn running<G: Fn(Double, i32, i64, Single) -> Double>(
    grow: G,
    counts: Seq<i32>,
    total: i64,
    temperature: Single,
) -> Seq<Double>
    decreases counts.len(),
{
    if counts.len() == 0 {
        Seq::empty()
    } else {
        let before = running(grow, counts.drop_last(), total, temperature);
        let so_far = if before.len() == 0 {
            Double::zero_spec()
        } else {
            before.last()
        };
        before.push(grown(grow, so_far, counts.last(), total, temperature))
    }
}

/// Whether the sum at `k` is the first one that is at least the given threshold.
pub open spec fn is_pick(sums: Seq<Double>, threshold: Double, k: int) -> bool {
    &&& 0 <= k < sums.len()
    &&& threshold.at_most_spec(sums[k])
    &&& forall|j: int| 0 <= j < k ==> !threshold.at_most_spec(#[trigger] sums[j])
}

/// Whether the threshold is above the sum before `k`, and not above the one at `k`.
pub open spec fn is_share(sums: Seq<Double>, threshold: Double, k: int) -> bool {
    &&& 0 <= k < sums.len()
    &&& threshold.key_spec() <= sums[k].key_spec()
    &&& k > 0 ==> sums[k - 1].key_spec() < threshold.key_spec()
}

impl Single {
    /// Whether this temperature leaves nothing to chance.
    pub open spec fn is_greedy(self) -> bool {
        !self.is_nan_spec() && self.key_spec() <= GREEDY_BITS
    }
}

impl Tree {
    /// Whether move `i` is at least as good as move `j`: it has more visits, or as many
    /// visits and a prior that is not smaller.
    pub open spec fn prefers(self, i: int, j: int) -> bool {
        ||| self.edge(i).count > self.edge(j).count
        ||| self.edge(i).count == self.edge(j).count && self.prior[i].rank_spec()
            >= self.prior[j].rank_spec()
    }

    /// Whether the given move is the last of the best ones.
    pub open spec fn is_best(self, i: int) -> bool {
        &&& 0 <= i < MOVES
        &&& forall|j: int| 0 <= j < MOVES ==> #[trigger] self.prefers(i, j)
        &&& forall|j: int| i < j < MOVES ==> !#[trigger] self.prefers(j, i)
    }

    /// The number of visits of each move that was visited, in ascending order of the moves.
    pub open spec fn popularity(self) -> Seq<i32> {
        counts_of(self.counts(), at_least(self.counts(), 1, MOVES as nat))
    }

    /// The place, among the numbers of visits with the largest first, of the smallest one that
    /// a popular move can have.
    pub open spec fn popularity_cut(self) -> int {
        cut(descending(self.popularity()), sum(self.popularity()), UNPOPULAR as int)
    }

    /// The popular moves, in ascending order: those with at least as many visits as the last
    /// of the most visited moves that leave but a few percent of the visits to others.
    pub open spec fn popular(self) -> Seq<usize> {
        at_least(
            self.counts(),
            descending(self.popularity())[self.popularity_cut()],
            MOVES as nat,
        )
    }

    /// The number of visits of the most visited moves that leave but a few percent of the
    /// visits to others.
    pub open spec fn popular_total(self) -> int {
        sum(descending(self.popularity()).take(self.popularity_cut() + 1))
    }

    /// The sums of the weights of the popular moves up to each of them.
    pub open spec fn popular_sums<G: Fn(Double, i32, i64, Single) -> Double>(
        self,
        grow: G,
        temperature: Single,
    ) -> Seq<Double> {
        running(
            grow,
            counts_of(self.counts(), self.popular()),
            self.popular_total() as i64,
            temperature,
        )
    }

    /// Whether `r` is the value and the number of a move that the search may be asked to play.
    ///
    /// At a temperature that leaves nothing to chance it is the best move. Otherwise it is the
    /// popular one into whose share of the sum of the weights falls what was drawn for that
    /// sum.
    /// Once some move was visited, a move that was visited is returned.
    pub open spec fn is_outcome<
        G: Fn(Double, i32, i64, Single) -> Double,
        D: FnOnce(Double) -> Double,
    >(self, temperature: Single, grow: G, draw: D, r: (Single, usize)) -> bool {
        let sums = self.popular_sums(grow, temperature);
        &&& r.1 < MOVES
        &&& self.is_visited() ==> self.edge(r.1 as int).count > 0
        &&& if temperature.is_greedy() {
            &&& self.is_best(r.1 as int)
            &&& r.0 == self.edge(r.1 as int).value
        } else {
            &&& is_ascending(sums)
            &&& !sums.last().is_tiny_spec()
            &&& exists|threshold: Double, k: int|
                {
                    &&& #[trigger] call_ensures(draw, (sums.last(),), threshold)
                    &&& #[trigger] is_pick(sums, threshold, k)
                    &&& is_share(sums, threshold, k)
                    &&& r.1 == self.popular()[k]
                    &&& r.0 == self.edge(r.1 as int).value
                }
        }
    }

    /// Whether some move was visited.
    pub open spec fn is_visited(self) -> bool {
        exists|i: int| 0 <= i < MOVES && (#[trigger] self.edge(i)).count > 0
    }
}

/// What is in the list of the moves with at least so many visits.
pub proof fn lemma_at_least(counts: Seq<i32>, least: i32, n: nat)
    requires
        n <= counts.len() <= usize::MAX,
    ensures
        at_least(counts, least, n).len() <= n,
        forall|k: int|
            0 <= k < at_least(counts, least, n).len() ==> {
                &&& (#[trigger] at_least(counts, least, n)[k]) < n
                &&& counts[at_least(counts, least, n)[k] as int] >= least
            },
        forall|i: int|
            0 <= i < n && #[trigger] counts[i] >= least ==> at_least(counts, least, n).contains(
                i as usize,
            ),
        forall|j: int, k: int|
            0 <= j < k < at_least(counts, least, n).len() ==> (#[trigger] at_least(
                counts,
                least,
                n,
            )[j]) < (#[trigger] at_least(counts, least, n)[k]),
    decreases n,
{
    if n > 0 {
        let m = (n - 1) as nat;
        lemma_at_least(counts, least, m);
        let before = at_least(counts, least, m);
        let all = at_least(counts, least, n);
        assert forall|i: int| 0 <= i < n && #[trigger] counts[i] >= least implies all.contains(
            i as usize,
        ) by {
            if i < m {
                let k = choose|k: int| 0 <= k < before.len() && before[k] == i as usize;
                assert(all[k] == i as usize);
            } else {
                assert(all[all.len() - 1] == i as usize);
            }
        }
    }
}

/// No move has more visits than the popular moves have in all, and some move is popular.
proof fn lemma_popular(counts: Seq<i32>, visited: Seq<usize>, least: i32, total: int)
    requires
        counts.len() == MOVES,
        visited == at_least(counts, 1, MOVES as nat),
        visited.len() > 0,
        ({
            let sorted = descending(counts_of(counts, visited));
            let k = cut(sorted, sum(counts_of(counts, visited)), UNPOPULAR as int);
            &&& reaches(sorted, sum(counts_of(counts, visited)), UNPOPULAR as int, k)
            &&& least == sorted[k]
            &&& total == sum(sorted.take(k + 1))
        }),
    ensures
        least >= 1,
        at_least(counts, least, MOVES as nat).len() > 0,
        forall|i: int| 0 <= i < MOVES ==> #[trigger] counts[i] <= total,
{
    broadcast use vstd::seq_lib::group_to_multiset_ensures;

    let values = counts_of(counts, visited);
    let sorted = descending(values);
    let k = cut(sorted, sum(values), UNPOPULAR as int);
    lemma_at_least(counts, 1, MOVES as nat);
    lemma_descending(values);
    assert forall|j: int| 0 <= j < sorted.len() implies values.contains(#[trigger] sorted[j]) by {
        assert(sorted.to_multiset().count(sorted[j]) > 0);
        assert(values.to_multiset().count(sorted[j]) > 0);
    }
    assert forall|j: int| 0 <= j < values.len() implies sorted.contains(#[trigger] values[j]) by {
        assert(values.to_multiset().count(values[j]) > 0);
        assert(sorted.to_multiset().count(values[j]) > 0);
    }
    assert forall|j: int| 0 <= j < sorted.len() implies #[trigger] sorted[j] >= 1 by {
        let i = choose|i: int| 0 <= i < values.len() && values[i] == sorted[j];
        assert(counts[visited[i] as int] >= 1);
    }
    let top = sorted.take(k + 1);
    assert forall|j: int| 0 <= j < top.len() implies #[trigger] top[j] >= 0 by {
        assert(top[j] == sorted[j]);
    }
    lemma_sum_at_least(top, 0);
    assert forall|i: int| 0 <= i < MOVES implies #[trigger] counts[i] <= total by {
        if counts[i] >= 1 {
            assert(visited.contains(i as usize));
            let j = choose|j: int| 0 <= j < visited.len() && visited[j] == i as usize;
            assert(values[j] == counts[i]);
            let m = choose|m: int| 0 <= m < sorted.len() && sorted[m] == values[j];
            assert(sorted[0] >= sorted[m]);
        }
    }
    lemma_at_least(counts, least, MOVES as nat);
    let i = choose|i: int| 0 <= i < values.len() && values[i] == sorted[k];
    assert(counts[visited[i] as int] >= least);
    assert(at_least(counts, least, MOVES as nat).contains(visited[i]));
}

/// Where some move was visited, some move is popular, and every popular move was visited.
pub proof fn lemma_popular_visited(tree: Tree)
    requires
        tree.is_visited(),
    ensures
        tree.popular().len() > 0,
        forall|k: int|
            0 <= k < tree.popular().len() ==> {
                &&& (#[trigger] tree.popular()[k]) < MOVES
                &&& tree.edge(tree.popular()[k] as int).count > 0
            },
{
    let counts = tree.counts();
    let visited = at_least(counts, 1, MOVES as nat);
    let values = tree.popularity();
    let i = choose|i: int| 0 <= i < MOVES && (#[trigger] tree.edge(i)).count > 0;
    lemma_at_least(counts, 1, MOVES as nat);
    assert(counts[i] >= 1);
    assert(visited.contains(i as usize));
    assert forall|k: int| 0 <= k < values.len() implies #[trigger] values[k] >= 0 by {
        assert(counts[visited[k] as int] >= 1);
    }
    lemma_sum_at_least(values, 0);
    lemma_descending(values);
    lemma_reaches(descending(values), UNPOPULAR as int);
    let least = descending(values)[tree.popularity_cut()];
    lemma_popular(counts, visited, least, tree.popular_total());
    lemma_at_least(counts, least, MOVES as nat);
}

/// There is one best move.
pub proof fn lemma_best_unique(tree: Tree, a: int, b: int)
    requires
        tree.is_best(a),
        tree.is_best(b),
    ensures
        a == b,
{
    assert(tree.prefers(a, b));
    assert(tree.prefers(b, a));
}

/// Returns a random number below the given one.
///
/// This calls `gen_range` of `rand::Rng` on the generator that `rand::thread_rng` returns,
/// with zero as the lower bound, which is included, and the given number as the upper bound,
/// which is not. Of the result only its range is claimed.
#[verifier::external_body]
fn random_below(bound: usize) -> (r: usize)
    requires
        bound > 0,
    ensures
        r < bound,
{
    rand::thread_rng().gen_range(0, bound)
}

/// Some moves, and the sums of the weights of the moves up to each of them.
pub struct Lottery {
    pub moves: Vec<usize>,
    pub sums: Vec<Double>,
}

impl Lottery {
    /// There is a move, each has a sum, and no sum is smaller than one before it.
    pub open spec fn wf(self) -> bool {
        &&& self.moves@.len() == self.sums@.len()
        &&& self.moves@.len() > 0
        &&& is_ascending(self.sums@)
    }

    /// Returns the sum of all weights.
    pub fn total(&self) -> (r: Double)
        requires
            self.wf(),
        ensures
            r == self.sums@.last(),
    {
        self.sums[self.sums.len() - 1]
    }

    /// Returns the first move whose sum is at least the given threshold: the one into whose
    /// share, above the sum before it and up to its own, the threshold falls.
    ///
    /// # Arguments
    ///
    /// * `threshold` - what the sum of the weights has to reach
    ///
    pub fn pick(&self, threshold: Double) -> (r: usize)
        requires
            self.wf(),
            threshold.at_most_spec(self.sums@.last()),
        ensures
            exists|k: int|
                {
                    &&& #[trigger] is_pick(self.sums@, threshold, k)
                    &&& is_share(self.sums@, threshold, k)
                    &&& r == self.moves@[k]
                },
    {
        let mut k: usize = 0;
        while k < self.sums.len()
            invariant
                k < self.sums@.len(),
                self.wf(),
                threshold.at_most_spec(self.sums@.last()),
                forall|j: int| 0 <= j < k ==> !threshold.at_most_spec(#[trigger] self.sums@[j]),
            decreases self.sums@.len() - k,
        {
            if threshold.at_most(self.sums[k]) {
                assert(is_pick(self.sums@, threshold, k as int));
                proof {
                    lemma_share(self.sums@, threshold, k as int);
                }
                return self.moves[k];
            }
            k += 1;
        }
        self.moves[0]
    }
}

/// Where no sum is smaller than the one before it, a move is picked exactly for the thresholds
/// above the sum before it and up to its own: its share of the thresholds is its weight.
pub proof fn lemma_share(sums: Seq<Double>, threshold: Double, k: int)
    requires
        is_ascending(sums),
        !threshold.is_nan_spec(),
    ensures
        is_pick(sums, threshold, k) <==> is_share(sums, threshold, k),
{
    if 0 <= k < sums.len() {
        assert(sums[k].at_most_spec(sums[k]));
    }
    if 0 < k < sums.len() {
        assert(sums[k - 1].at_most_spec(sums[k]));
        if sums[k - 1].key_spec() < threshold.key_spec() {
            assert forall|j: int| 0 <= j < k implies !threshold.at_most_spec(
                #[trigger] sums[j],
            ) by {
                assert(sums[j].at_most_spec(sums[k - 1]));
            }
        }
    }
}

impl Node {
    /// Returns the number of visits of each move.
    pub fn counts(&self) -> (r: Vec<i32>)
        requires
            self.children.wf(),
        ensures
            r@ == self.view().counts(),
    {
        let mut counts: Vec<i32> = Vec::new();
        let mut i: usize = 0;
        while i < MOVES
            invariant
                i <= MOVES,
                self.children.wf(),
                counts@.len() == i,
                forall|j: int| 0 <= j < i ==> #[trigger] counts@[j] == self.view().edge(j).count,
            decreases MOVES - i,
        {
            counts.push(self.count_of(i));
            i += 1;
        }
        assert(counts@ =~= self.view().counts());
        counts
    }

    /// Returns the most visited move, and its average value. Of several moves with that many
    /// visits it is the one with the largest prior.
    pub fn most_visited(&self) -> (r: (Single, usize))
        requires
            self.children.wf(),
        ensures
            self.view().is_best(r.1 as int),
            r.0 == self.view().edge(r.1 as int).value,
            r.1 < MOVES,
            forall|j: int|
                0 <= j < MOVES ==> {
                    let best = self.view().edge(r.1 as int);
                    &&& (#[trigger] self.view().edge(j)).count <= best.count
                    &&& self.view().edge(j).count == best.count ==> self.prior[j].rank_spec()
                        <= self.prior[r.1 as int].rank_spec()
                },
    {
        let ghost tree = self.view();
        let counts: Vec<i32> = self.counts();
        let mut max_i: usize = 0;
        let mut i: usize = 1;
        while i < MOVES
            invariant
                1 <= i <= MOVES,
                max_i < i,
                tree == self.view(),
                counts@ == tree.counts(),
                forall|j: int| 0 <= j < i ==> #[trigger] tree.prefers(max_i as int, j),
                forall|j: int| max_i < j < i ==> !#[trigger] tree.prefers(j, max_i as int),
            decreases MOVES - i,
        {
            let better: bool = counts[i] > counts[max_i] || counts[i] == counts[max_i]
                && self.prior[i].rank() >= self.prior[max_i].rank();
            assert(better == tree.prefers(i as int, max_i as int));
            if better {
                assert forall|j: int| 0 <= j < i + 1 implies #[trigger] tree.prefers(
                    i as int,
                    j,
                ) by {
                    if j < i {
                        assert(tree.prefers(max_i as int, j));
                    }
                }
                max_i = i;
            }
            i += 1;
        }
        proof {
            law_most_visited(tree, max_i as int);
        }
        (self.value_of(max_i), max_i)
    }

    /// Returns the moves with at least so many visits, in ascending order.
    fn moves_with(counts: &Vec<i32>, least: i32) -> (r: Vec<usize>)
        requires
            counts@.len() == MOVES,
        ensures
            r@ == at_least(counts@, least, MOVES as nat),
    {
        let mut moves: Vec<usize> = Vec::new();
        let mut i: usize = 0;
        while i < MOVES
            invariant
                i <= MOVES,
                counts@.len() == MOVES,
                moves@ == at_least(counts@, least, i as nat),
            decreases MOVES - i,
        {
            if counts[i] >= least {
                moves.push(i);
            }
            i += 1;
        }
        moves
    }

    /// Returns the numbers of visits of the given moves.
    fn counts_at(counts: &Vec<i32>, moves: &Vec<usize>) -> (r: Vec<i32>)
        requires
            forall|k: int| 0 <= k < moves@.len() ==> #[trigger] moves@[k] < counts@.len(),
        ensures
            r@ == counts_of(counts@, moves@),
    {
        let mut out: Vec<i32> = Vec::new();
        let mut k: usize = 0;
        while k < moves.len()
            invariant
                k <= moves@.len(),
                forall|k: int| 0 <= k < moves@.len() ==> #[trigger] moves@[k] < counts@.len(),
                out@.len() == k,
                forall|j: int| 0 <= j < k ==> out@[j] == counts@[#[trigger] moves@[j] as int],
            decreases moves@.len() - k,
        {
            out.push(counts[moves[k]]);
            k += 1;
        }
        assert(out@ =~= counts_of(counts@, moves@));
        out
    }

    /// Returns the popular moves with the sums of their weights, from which one is to be
    /// drawn.
    ///
    /// # Arguments
    ///
    /// * `temperature` - how random the draw should be
    /// * `grow` - returns a sum of weights with the weight of one more move, given the sum,
    ///   the visits of the move, the visits of the popular moves and the temperature
    ///
    pub fn lottery<G: Fn(Double, i32, i64, Single) -> Double>(
        &self,
        temperature: Single,
        grow: &G,
    ) -> (r: Lottery)
        requires
            self.children.wf(),
            self.view().is_visited(),
            temperature.is_nan_spec() ==> self.view().popularity_cut() == 0,
            !temperature.is_greedy(),
            is_grow(*grow),
        ensures
            r.wf(),
            r.moves@ == self.view().popular(),
            r.sums@ == self.view().popular_sums(*grow, temperature),
            r.sums@.last().is_weight(),
            !r.sums@.last().is_tiny_spec(),
            forall|k: int|
                0 <= k < r.moves@.len() ==> {
                    &&& (#[trigger] r.moves@[k]) < MOVES
                    &&& self.view().edge(r.moves@[k] as int).count > 0
                },
    {
        let ghost tree = self.view();
        let all: Vec<i32> = self.counts();
        let visited: Vec<usize> = Node::moves_with(&all, 1);
        proof {
            lemma_at_least(all@, 1, MOVES as nat);
        }
        let counts: Vec<i32> = Node::counts_at(&all, &visited);
        proof {
            let i = choose|i: int| 0 <= i < MOVES && (#[trigger] tree.edge(i)).count > 0;
            assert(all@[i] >= 1);
            assert(visited@.contains(i as usize));
            assert(counts@.len() > 0);
            assert forall|k: int| 0 <= k < counts@.len() implies #[trigger] counts@[k] >= 1 by {
                assert(all@[visited@[k] as int] >= 1);
            }
            lemma_sum_at_least(counts@, 0);
            lemma_descending(counts@);
            lemma_reaches(descending(counts@), UNPOPULAR as int);
        }
        let (least, _) = percentile(&counts, sum_of(&counts), UNPOPULAR);
        let total: i64 = weight_above(&counts, sum_of(&counts), UNPOPULAR);
        let moves: Vec<usize> = Node::moves_with(&all, least);
        proof {
            lemma_at_least(all@, least, MOVES as nat);
            lemma_popular(all@, visited@, least, total as int);
        }
        proof {
            if tree.popularity_cut() == 0 {
                let top = descending(counts@).take(1);
                assert(top.drop_last() =~= Seq::empty());
                assert(sum(top.drop_last()) == 0);
                assert(total == least);
            }
        }
        let mut sums: Vec<Double> = Vec::new();
        let mut s_total: Double = Double::zero();
        let mut k: usize = 0;
        let ghost picked = counts_of(all@, moves@);
        while k < moves.len()
            invariant
                k <= moves@.len(),
                all@.len() == MOVES,
                forall|k: int| 0 <= k < moves@.len() ==> #[trigger] moves@[k] < MOVES,
                is_grow(*grow),
                picked == counts_of(all@, moves@),
                sums@ == running(*grow, picked.take(k as int), total, temperature),
                sums@.len() == k,
                !temperature.is_greedy(),
                forall|i: int|
                    0 <= i < moves@.len() ==> {
                        &&& 0 < #[trigger] picked[i] <= total
                        &&& temperature.is_nan_spec() ==> picked[i] == total
                    },
                s_total.is_weight(),
                is_ascending(sums@),
                k > 0 ==> !s_total.is_tiny_spec(),
                s_total == if k == 0 {
                    Double::zero_spec()
                } else {
                    sums@.last()
                },
            decreases moves@.len() - k,
        {
            assert(picked.take(k + 1).drop_last() =~= picked.take(k as int));
            assert(0 < picked[k as int] <= total);
            let ghost before = sums@;
            let ghost so_far = s_total;
            s_total = grow(s_total, all[moves[k]], total, temperature);
            sums.push(s_total);
            assert forall|i: int, j: int| 0 <= i <= j < sums@.len() implies (
            #[trigger] sums@[i]).at_most_spec(#[trigger] sums@[j]) by {
                if j == k && i < k {
                    assert(before[i].at_most_spec(before[k - 1]));
                    assert(before[k - 1] == so_far);
                } else if j < k {
                    assert(before[i].at_most_spec(before[j]));
                }
            }
            k += 1;
        }
        assert(picked.take(k as int) =~= picked);
        Lottery { moves, sums }
    }

    /// Returns whether one move alone has all visits but for those of the unpopular moves.
    pub fn is_decided(&self) -> (r: bool)
        requires
            self.children.wf(),
        ensures
            r == (self.view().is_visited() && self.view().popularity_cut() == 0),
    {
        let ghost tree = self.view();
        let all: Vec<i32> = self.counts();
        let visited: Vec<usize> = Node::moves_with(&all, 1);
        proof {
            lemma_at_least(all@, 1, MOVES as nat);
        }
        let counts: Vec<i32> = Node::counts_at(&all, &visited);
        if counts.len() == 0 {
            proof {
                if tree.is_visited() {
                    let i = choose|i: int| 0 <= i < MOVES && (#[trigger] tree.edge(i)).count > 0;
                    assert(all@[i] >= 1);
                    assert(visited@.contains(i as usize));
                }
            }
            return false;
        }
        proof {
            assert forall|k: int| 0 <= k < counts@.len() implies #[trigger] counts@[k] >= 1 by {
                assert(all@[visited@[k] as int] >= 1);
            }
            assert(all@[visited@[0] as int] >= 1);
            assert(tree.edge(visited@[0] as int).count > 0);
            lemma_sum_at_least(counts@, 0);
            lemma_descending(counts@);
            lemma_reaches(descending(counts@), UNPOPULAR as int);
        }
        is_dominated(&counts, sum_of(&counts), UNPOPULAR)
    }

    /// Returns the move into whose share falls what is drawn for the sum of all weights, and
    /// its average value. Where that sum is too small to draw from, any move is returned, with
    /// the value one half.
    ///
    /// # Arguments
    ///
    /// * `lottery` - the moves to draw from
    /// * `draw` - returns a random share of the given number
    ///
    pub fn draw_from<D: FnOnce(Double) -> Double>(&self, lottery: &Lottery, draw: D) -> (r: (
        Single,
        usize,
    ))
        requires
            self.children.wf(),
            lottery.wf(),
            lottery.sums@.last().is_weight(),
            forall|k: int| 0 <= k < lottery.moves@.len() ==> #[trigger] lottery.moves@[k] < MOVES,
            is_draw(draw),
        ensures
            r.1 < MOVES,
            if lottery.sums@.last().is_tiny_spec() {
                r.0 == Single::half_spec()
            } else {
                exists|threshold: Double, k: int|
                    {
                        &&& #[trigger] call_ensures(draw, (lottery.sums@.last(),), threshold)
                        &&& #[trigger] is_pick(lottery.sums@, threshold, k)
                        &&& is_share(lottery.sums@, threshold, k)
                        &&& r.1 == lottery.moves@[k]
                        &&& r.0 == self.view().edge(r.1 as int).value
                    }
            },
    {
        let total: Double = lottery.total();
        if total.is_tiny() {
            (Single::half(), random_below(MOVES))
        } else {
            let threshold: Double = draw(total);
            let max_i: usize = lottery.pick(threshold);
            (self.value_of(max_i), max_i)
        }
    }

    /// Returns the best move according to the current search tree, and its average value.
    /// This is determined as the most visited child. If the temperature is large enough then
    /// this process is stochastic, so that the probability that a move is picked is
    /// proportional to its weight, which grows with its visit count.
    ///
    /// # Arguments
    ///
    /// * `temperature` - How random the process should be, if set to +Inf then the values are
    ///   picked completely at random, and if set to 0 the selection is greedy.
    /// * `grow` - returns a sum of weights with the weight of one more move, given the sum,
    ///   the visits of the move, the visits of the popular moves and the temperature
    /// * `draw` - returns a random share of the given number
    ///
    pub fn best<G: Fn(Double, i32, i64, Single) -> Double, D: FnOnce(Double) -> Double>(
        &self,
        temperature: Single,
        grow: &G,
        draw: D,
    ) -> (r: (Single, usize))
        requires
            self.children.wf(),
            temperature.is_greedy() || {
                &&& self.view().is_visited()
                &&& temperature.is_nan_spec() ==> self.view().popularity_cut() == 0
            },
            is_grow(*grow),
            is_draw(draw),
        ensures
            self.view().is_outcome(temperature, *grow, draw, r),
    {
        if temperature.at_most(Single::from_bits(GREEDY_BITS)) {
            let best: (Single, usize) = self.most_visited();
            proof {
                if self.view().is_visited() {
                    let i = choose|i: int|
                        0 <= i < MOVES && (#[trigger] self.view().edge(i)).count > 0;
                    assert(self.view().prefers(best.1 as int, i));
                }
            }
            best
        } else {
            let lottery: Lottery = self.lottery(temperature, grow);
            self.draw_from(&lottery, draw)
        }
    }

    /// Returns a vector containing the _correct_ normalized probability that each move should
    /// be played given the current search tree: the share that it has of all visits.
    ///
    /// # Arguments
    ///
    /// * `share` - returns the quotient of the visits of a move and of all visits
    ///
    pub fn softmax<F: Fn(i32, i64) -> Single>(&self, share: &F) -> (r: Vec<Single>)
        requires
            self.children.wf(),
            forall|count: i32, total: i64|
                0 < count <= total ==> #[trigger] call_requires(*share, (count, total)),
        ensures
            r@.len() == MOVES,
            i64::MIN <= sum(self.view().popularity()) <= i64::MAX,
            forall|i: int|
                0 <= i < MOVES ==> if self.view().edge(i).count > 0 {
                    call_ensures(
                        *share,
                        (self.view().edge(i).count, sum(self.view().popularity()) as i64),
                        #[trigger] r@[i],
                    )
                } else {
                    r@[i] == Single::zero_spec()
                },
    {
        let all: Vec<i32> = self.counts();
        let visited: Vec<usize> = Node::moves_with(&all, 1);
        proof {
            lemma_at_least(all@, 1, MOVES as nat);
        }
        let counts: Vec<i32> = Node::counts_at(&all, &visited);
        let total: i64 = sum_of(&counts);
        proof {
            assert forall|k: int| 0 <= k < counts@.len() implies #[trigger] counts@[k] >= 0 by {
                assert(all@[visited@[k] as int] >= 1);
            }
            assert forall|i: int| 0 <= i < MOVES implies #[trigger] all@[i] <= total
                || all@[i] <= 0 by {
                if all@[i] >= 1 {
                    assert(visited@.contains(i as usize));
                    let k = choose|k: int| 0 <= k < visited@.len() && visited@[k] == i as usize;
                    lemma_sum_at_least(counts@, k);
                }
            }
        }
        let mut s: Vec<Single> = Vec::new();
        let mut i: usize = 0;
        while i < MOVES
            invariant
                i <= MOVES,
                all@ == self.view().counts(),
                forall|j: int| 0 <= j < MOVES ==> #[trigger] all@[j] <= total || all@[j] <= 0,
                forall|count: i32, total: i64|
                    0 < count <= total ==> #[trigger] call_requires(*share, (count, total)),
                s@.len() == i,
                forall|j: int|
                    0 <= j < i ==> if all@[j] > 0 {
                        call_ensures(*share, (all@[j], total), #[trigger] s@[j])
                    } else {
                        s@[j] == Single::zero_spec()
                    },
            decreases MOVES - i,
        {
            let count: i32 = all[i];
            if count > 0 {
                s.push(share(count, total));
            } else {
                s.push(Single::zero());
            }
            i += 1;
        }
        s
    }
}

} // verus!
