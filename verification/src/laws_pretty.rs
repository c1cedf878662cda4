//! What is shown to a human: the most visited path, and a line for each of the most visited
//! moves.

use crate::arithmetic::{accumulated, mean_of};
use crate::laws::law_busiest;
use crate::laws_record::follows;
use crate::laws_text::occurs;
use crate::model::{lemma_visited, Kids, Tree, MOVES};
use crate::notation::percentage;
use crate::pretty::{vertex, vertices};
use crate::rank::{lemma_ranked, place, ranked};
use crate::single::Single;
use crate::text::{aligned, decimal, joined};
use vstd::prelude::*;

verus! {

impl Tree {
    /// The node that is reached after `k` of the given moves.
    pub open spec fn after(self, moves: Seq<usize>, k: nat) -> Tree
        decreases k,
    {
        if k == 0 {
            self
        } else {
            self.edge(moves[0] as int).child->0.after(moves.drop_first(), (k - 1) as nat)
        }
    }
}

/// The most visited path takes at each node a move with at least as many visits as any other,
/// and ends where no move was visited.
pub proof fn law_greedy_path(tree: Tree)
    requires
        tree.wf(),
    ensures
        forall|k: int|
            0 <= k < tree.greedy_path().len() ==> {
                let node = tree.after(tree.greedy_path(), k as nat);
                let i = (#[trigger] tree.greedy_path()[k]) as int;
                &&& i < MOVES
                &&& node.edge(i).count > 0
                &&& node.edge(i).child is Some
                &&& forall|j: int|
                    0 <= j < MOVES ==> (#[trigger] node.edge(j)).count <= node.edge(i).count
            },
        forall|j: int|
            0 <= j < MOVES ==> (#[trigger] tree.after(
                tree.greedy_path(),
                tree.greedy_path().len(),
            ).edge(j)).count == 0,
    decreases tree,
{
    let path = tree.greedy_path();
    let i = tree.kids.busiest();
    assert(tree.edge(i).wf());
    law_busiest(tree, 0);
    assert forall|j: int| 0 <= j < MOVES implies (#[trigger] tree.edge(j)).count <= tree.edge(
        i,
    ).count by {
        law_busiest(tree, j);
    }
    if tree.edge(i).count == 0 {
        assert forall|j: int| 0 <= j < MOVES implies (#[trigger] tree.edge(j)).count == 0 by {
            assert(tree.edge(j).wf());
        }
    } else {
        let child = tree.edge(i).child->0;
        let rest = child.greedy_path();
        law_greedy_path(child);
        assert(path == seq![i as usize] + rest);
        assert(path.drop_first() =~= rest);
        assert(path[0] == i as usize);
        assert forall|k: int| 0 <= k < path.len() implies {
            let node = tree.after(path, k as nat);
            let m = (#[trigger] path[k]) as int;
            &&& m < MOVES
            &&& node.edge(m).count > 0
            &&& node.edge(m).child is Some
            &&& forall|j: int|
                0 <= j < MOVES ==> (#[trigger] node.edge(j)).count <= node.edge(m).count
        } by {
            if k > 0 {
                assert(path[k] == rest[k - 1]);
                assert(tree.after(path, k as nat) == child.after(rest, (k - 1) as nat));
            } else {
                assert(tree.after(path, 0) == tree);
            }
        }
        assert(tree.after(path, path.len()) == child.after(rest, rest.len()));
    }
}

/// The visited moves are listed in the order of their slots: in ascending order for a dense node,
/// and in the order in which they were first touched for a sparse one.
pub proof fn law_visited_order(kids: Kids, k: int) -> (slots: Seq<int>)
    requires
        kids.wf(),
        0 <= k,
    ensures
        slots.len() == kids.visited_from(k).len(),
        forall|a: int|
            0 <= a < slots.len() ==> {
                &&& k <= #[trigger] slots[a] < kids.width()
                &&& kids.edge_at(slots[a]).count > 0
                &&& kids.visited_from(k)[a] == kids.move_at(slots[a])
            },
        forall|a: int, b: int| 0 <= a < b < slots.len() ==> slots[a] < slots[b],
        forall|p: int|
            k <= p < kids.width() && (#[trigger] kids.edge_at(p)).count > 0 ==> slots.contains(p),
    decreases kids.width() - k,
{
    if k < kids.width() {
        let rest = law_visited_order(kids, k + 1);
        if let Kids::Sparse(slots) = kids {
            assert(0 <= slots[k].0 < MOVES);
        }
        let slots = if kids.edge_at(k).count > 0 {
            seq![k] + rest
        } else {
            rest
        };
        assert forall|p: int|
            k <= p < kids.width() && (#[trigger] kids.edge_at(p)).count
                > 0 implies slots.contains(p) by {
            if p == k {
                assert(slots[0] == k);
            } else {
                let a = choose|a: int| 0 <= a < rest.len() && rest[a] == p;
                assert(slots[a + slots.len() - rest.len()] == p);
            }
        }
        slots
    } else {
        Seq::empty()
    }
}

proof fn lemma_place_at(counts: Seq<i32>, moves: Seq<usize>, m: usize) -> (p: int)
    ensures
        0 <= p <= moves.len(),
        place(counts, moves, m) == moves.take(p).push(m) + moves.skip(p),
        p > 0 ==> counts[moves[p - 1] as int] >= counts[m as int],
        forall|k: int|
            p <= k < moves.len() ==> counts[(#[trigger] moves[k]) as int] < counts[m as int],
    decreases moves.len(),
{
    if moves.len() == 0 || counts[moves.last() as int] >= counts[m as int] {
        assert(place(counts, moves, m) =~= moves.take(moves.len() as int).push(m) + moves.skip(
            moves.len() as int,
        ));
        moves.len() as int
    } else {
        let init = moves.drop_last();
        let p = lemma_place_at(counts, init, m);
        assert(place(counts, moves, m) =~= moves.take(p).push(m) + moves.skip(p));
        assert forall|k: int| p <= k < moves.len() implies counts[(#[trigger] moves[k]) as int]
            < counts[m as int] by {
            if k < init.len() {
                assert(init[k] == moves[k]);
            }
        }
        p
    }
}

/// Ranked moves are the given ones, each from another place, by decreasing number of visits,
/// and those with as many visits in the order in which they were given.
pub proof fn law_ranked(counts: Seq<i32>, moves: Seq<usize>) -> (at: Seq<int>)
    ensures
        ranked(counts, moves).len() == moves.len(),
        at.len() == moves.len(),
        forall|k: int|
            0 <= k < at.len() ==> {
                &&& 0 <= #[trigger] at[k] < moves.len()
                &&& ranked(counts, moves)[k] == moves[at[k]]
            },
        forall|j: int, k: int|
            0 <= j < k < at.len() ==> {
                &&& #[trigger] at[j] != #[trigger] at[k]
                &&& counts[moves[at[j]] as int] >= counts[moves[at[k]] as int]
                &&& counts[moves[at[j]] as int] == counts[moves[at[k]] as int] ==> at[j] < at[k]
            },
    decreases moves.len(),
{
    if moves.len() == 0 {
        Seq::empty()
    } else {
        let init = moves.drop_last();
        let n = init.len() as int;
        let before = law_ranked(counts, init);
        let sorted = ranked(counts, init);
        let p = lemma_place_at(counts, sorted, moves.last());
        let at = before.take(p).push(n) + before.skip(p);
        assert forall|k: int| 0 <= k < at.len() implies {
            &&& 0 <= #[trigger] at[k] < moves.len()
            &&& ranked(counts, moves)[k] == moves[at[k]]
        } by {
            if k < p {
                assert(at[k] == before[k]);
                assert(ranked(counts, moves)[k] == sorted[k]);
            } else if k > p {
                assert(at[k] == before[k - 1]);
                assert(ranked(counts, moves)[k] == sorted[k - 1]);
            }
        }
        assert forall|k: int| 0 <= k < p implies counts[(#[trigger] sorted[k]) as int] >= counts[
        moves.last() as int] by {
            if k < p - 1 {
                assert(before[k] != before[p - 1]);
            }
        }
        assert forall|j: int, k: int| 0 <= j < k < at.len() implies {
            &&& #[trigger] at[j] != #[trigger] at[k]
            &&& counts[moves[at[j]] as int] >= counts[moves[at[k]] as int]
            &&& counts[moves[at[j]] as int] == counts[moves[at[k]] as int] ==> at[j] < at[k]
        } by {
            let a = if j < p {
                j
            } else {
                j - 1
            };
            let b = if k < p {
                k
            } else {
                k - 1
            };
            if j != p {
                assert(at[j] == before[a]);
                assert(sorted[a] == moves[at[j]]);
            }
            if k != p {
                assert(at[k] == before[b]);
                assert(sorted[b] == moves[at[k]]);
            }
        }
        at
    }
}

/// The listed moves are moves that were visited, none twice, by decreasing number of visits. All
/// visited moves are listed if that is asked for or if there are ten at most; otherwise ten
/// are, and no other move has more visits than any of these.
pub proof fn law_listed(tree: Tree, verbose: bool)
    requires
        tree.kids.wf(),
    ensures
        ({
            let listed = tree.listed(verbose);
            &&& listed.no_duplicates()
            &&& forall|k: int|
                0 <= k < listed.len() ==> {
                    &&& (#[trigger] listed[k]) < MOVES
                    &&& tree.edge(listed[k] as int).count > 0
                }
            &&& forall|j: int, k: int|
                0 <= j <= k < listed.len() ==> tree.edge((#[trigger] listed[j]) as int).count
                    >= tree.edge((#[trigger] listed[k]) as int).count
            &&& !verbose ==> listed.len() <= 10
            &&& forall|i: int|
                0 <= i < MOVES && (#[trigger] tree.edge(i)).count > 0 && !listed.contains(
                    i as usize,
                ) ==> {
                    &&& !verbose
                    &&& listed.len() == 10
                    &&& forall|k: int|
                        0 <= k < 10 ==> tree.edge((#[trigger] listed[k]) as int).count
                            >= tree.edge(i).count
                }
        }),
{
    broadcast use vstd::seq_lib::group_to_multiset_ensures;

    let counts = tree.counts();
    let visited = tree.kids.visited_from(0);
    let all = ranked(counts, visited);
    let listed = tree.listed(verbose);
    lemma_visited(tree.kids, tree.initial_value);
    lemma_ranked(counts, visited);
    assert forall|k: int| 0 <= k < all.len() implies (#[trigger] all[k]) < MOVES && tree.edge(
        all[k] as int,
    ).count > 0 by {
        assert(visited.contains(all[k]));
        let j = choose|j: int| 0 <= j < visited.len() && visited[j] == all[k];
        crate::model::lemma_visited_from(tree.kids, 0, tree.initial_value);
        assert(visited[j] < MOVES);
    }
    assert(all.no_duplicates()) by {
        visited.lemma_multiset_has_no_duplicates();
        assert forall|x: usize| all.to_multiset().contains(x) implies all.to_multiset().count(x)
            == 1 by {
            assert(visited.to_multiset().contains(x));
        }
        all.lemma_multiset_has_no_duplicates_conv();
    }
    assert forall|k: int| 0 <= k < listed.len() implies #[trigger] listed[k] == all[k] by {}
    assert forall|j: int, k: int| 0 <= j <= k < all.len() implies tree.edge(
        (#[trigger] all[j]) as int,
    ).count >= tree.edge((#[trigger] all[k]) as int).count by {
        assert(counts[all[j] as int] >= counts[all[k] as int]);
    }
    assert forall|i: int|
        0 <= i < MOVES && (#[trigger] tree.edge(i)).count > 0 && !listed.contains(
            i as usize,
        ) implies {
        &&& !verbose
        &&& listed.len() == 10
        &&& forall|k: int|
            0 <= k < 10 ==> tree.edge((#[trigger] listed[k]) as int).count >= tree.edge(i).count
    } by {
        assert(tree.kids.edge(i, tree.initial_value).count > 0);
        assert(visited.contains(i as usize));
        assert(visited.to_multiset().count(i as usize) > 0);
        assert(all.to_multiset().count(i as usize) > 0);
        assert(all.contains(i as usize));
        let p = choose|p: int| 0 <= p < all.len() && all[p] == i as usize;
        if p < listed.len() {
            assert(listed[p] == i as usize);
        }
        assert forall|k: int| 0 <= k < 10 implies tree.edge((#[trigger] listed[k]) as int).count
            >= tree.edge(i).count by {
            assert(listed[k] == all[k]);
            assert(tree.edge(all[k] as int).count >= tree.edge(all[p] as int).count);
        }
    }
}

/// Of two listed moves with as many visits, the one that comes first among the visited moves is
/// listed first.
pub proof fn law_listed_ties(tree: Tree, verbose: bool, j: int, k: int) -> (slots: (int, int))
    requires
        0 <= j < k < tree.listed(verbose).len(),
        tree.edge(tree.listed(verbose)[j] as int).count == tree.edge(
            tree.listed(verbose)[k] as int,
        ).count,
        tree.listed(verbose)[j] < MOVES,
        tree.listed(verbose)[k] < MOVES,
    ensures
        0 <= slots.0 < slots.1 < tree.kids.visited_from(0).len(),
        tree.kids.visited_from(0)[slots.0] == tree.listed(verbose)[j],
        tree.kids.visited_from(0)[slots.1] == tree.listed(verbose)[k],
{
    let visited = tree.kids.visited_from(0);
    let at = law_ranked(tree.counts(), visited);
    assert(at[j] != at[k]);
    assert(tree.counts()[visited[at[j]] as int] == tree.edge(visited[at[j]] as int).count);
    assert(tree.counts()[visited[at[k]] as int] == tree.edge(visited[at[k]] as int).count);
    (at[j], at[k])
}

/// The sum of the values of the moves, each with its number of visits, is accumulated move by
/// move, starting from zero.
pub proof fn law_total_value<F: Fn(Single, i32, Single) -> Single>(tree: Tree, accumulate: F) -> (
    partial: Seq<Single>)
    ensures
        partial.len() == MOVES + 1,
        partial[0].bits == 0,
        forall|i: int|
            0 <= i < MOVES ==> #[trigger] partial[i + 1] == accumulated(
                accumulate,
                partial[i],
                tree.edge(i).count,
                tree.edge(i).value,
            ),
        tree.total_value(accumulate, MOVES as nat) == partial[MOVES as int],
{
    let partial = Seq::new((MOVES + 1) as nat, |i: int| tree.total_value(accumulate, i as nat));
    assert forall|i: int| 0 <= i < MOVES implies #[trigger] partial[i + 1] == accumulated(
        accumulate,
        partial[i],
        tree.edge(i).count,
        tree.edge(i).value,
    ) by {
        assert(partial[i + 1] == tree.total_value(accumulate, (i + 1) as nat));
        assert(partial[i] == tree.total_value(accumulate, i as nat));
    }
    partial
}

/// The summary gives the number of visits, the mean of the values as a percentage with one
/// decimal, and the most visited path.
#[verifier::spinoff_prover]
pub proof fn law_summary<
    F: Fn(Single, i32, Single) -> Single,
    M: Fn(Single, i32) -> Single,
    P: Fn(Single, usize, usize) -> String,
>(tree: Tree, accumulate: F, mean: M, percent: P)
    ensures
        tree.summary(accumulate, mean, percent) == "Nodes: "@ + decimal(tree.total_count as int)
            + ", Win: "@ + percentage(
            percent,
            mean_of(mean, tree.total_value(accumulate, 362), tree.total_count),
            0,
            1,
        ) + "%, PV: "@ + joined(vertices(tree.greedy_path())) + "\n"@,
{
}

/// The names of a path are those of its moves, in order.
pub proof fn law_vertices(moves: Seq<usize>, k: int)
    requires
        0 <= k < moves.len(),
    ensures
        vertices(moves).len() == moves.len(),
        vertices(moves)[k] == vertex(moves[k] as int),
{
}

proof fn lemma_assoc(a: Seq<char>, b: Seq<char>, c: Seq<char>)
    ensures
        (a + b) + c == a + (b + c),
{
    assert((a + b) + c =~= a + (b + c));
}

proof fn lemma_empty(a: Seq<char>)
    ensures
        a + Seq::empty() == a,
        Seq::empty() + a == a,
{
    assert(a + Seq::empty() =~= a);
    assert(Seq::empty() + a =~= a);
}

/// The lines of two lists of moves are those of the one and then those of the other.
#[verifier::spinoff_prover]
pub proof fn law_lines_join<P: Fn(Single, usize, usize) -> String>(
    tree: Tree,
    a: Seq<usize>,
    b: Seq<usize>,
    percent: P,
)
    ensures
        tree.lines(a + b, percent) == tree.lines(a, percent) + tree.lines(b, percent),
    decreases b.len(),
{
    if b.len() == 0 {
        assert(a + b =~= a);
        lemma_empty(tree.lines(a, percent));
    } else {
        let init = b.drop_last();
        assert((a + b).drop_last() =~= a + init);
        assert((a + b).last() == b.last());
        law_lines_join(tree, a, init, percent);
        lemma_assoc(
            tree.lines(a, percent),
            tree.lines(init, percent),
            tree.line(b.last() as int, percent),
        );
    }
}

/// The line of a move gives its name, the number of visits of the node below it, its value and
/// its prior as percentages with two decimals, and the path that starts with the move and goes
/// on along the most visited moves below it.
#[verifier::spinoff_prover]
pub proof fn law_line<P: Fn(Single, usize, usize) -> String>(tree: Tree, i: usize, percent: P)
    requires
        tree.edge(i as int).child is Some,
    ensures
        tree.lines(seq![i], percent) == aligned(vertex(i as int), 5) + " -> "@ + aligned(
            decimal(tree.edge(i as int).child->0.total_count as int),
            7,
        ) + " (W: "@ + percentage(percent, tree.edge(i as int).value, 5, 2) + "%) (N: "@
            + percentage(percent, tree.prior[i as int], 5, 2) + "%) PV: "@ + vertex(i as int)
            + " "@ + joined(vertices(tree.edge(i as int).child->0.greedy_path())) + "\n"@,
{
    let one = seq![i];
    assert(one.drop_last() =~= Seq::empty());
    assert(tree.lines(one.drop_last(), percent) == Seq::<char>::empty());
    lemma_empty(tree.line(i as int, percent));
}

/// Each listed move has its line, and the lines come in the order of the list.
#[verifier::spinoff_prover]
pub proof fn law_lines<P: Fn(Single, usize, usize) -> String>(
    tree: Tree,
    moves: Seq<usize>,
    j: int,
    k: int,
    percent: P,
)
    requires
        0 <= j < k < moves.len(),
    ensures
        occurs(tree.lines(seq![moves[j]], percent), tree.lines(moves, percent)),
        occurs(tree.lines(seq![moves[k]], percent), tree.lines(moves, percent)),
        follows(
            tree.lines(seq![moves[j]], percent),
            tree.lines(seq![moves[k]], percent),
            tree.lines(moves, percent),
        ),
{
    let front = moves.take(j);
    let mid = moves.subrange(j + 1, k);
    let back = moves.skip(k + 1);
    let x = seq![moves[j]];
    let y = seq![moves[k]];
    assert(moves =~= front + x + mid + y + back);
    law_lines_join(tree, front + x + mid + y, back, percent);
    law_lines_join(tree, front + x + mid, y, percent);
    law_lines_join(tree, front + x, mid, percent);
    law_lines_join(tree, front, x, percent);
    let a = tree.lines(front, percent);
    let b = tree.lines(mid, percent);
    let c = tree.lines(back, percent);
    let u = tree.lines(x, percent);
    let v = tree.lines(y, percent);
    let whole = tree.lines(moves, percent);
    assert(whole == a + u + b + v + c);
    lemma_assoc(a + u, b, v);
    lemma_assoc(a + u, b + v, c);
    assert(whole == a + u + (b + v + c));
    assert(whole == (a + u + b) + v + c);
}

} // verus!
