//! What holds of a series of probes into a fresh node, none of which is followed by an
//! insertion.

use crate::arithmetic::explored;
use crate::color::Color;
use crate::insert::lemma_leaf_wf;
use crate::laws::{law_probe_step, law_walk, lemma_with_loss};
use crate::model::{Edge, Tree, MOVES};
use crate::select::lemma_choice;
use crate::single::{is_argmax_single, Single};
use vstd::prelude::*;

verus! {

impl Tree {
    /// This tree after `n` probes.
    pub open spec fn probed<
        E: Fn(Single, Single, i64, i64) -> Single,
        R: Fn(Single, i64) -> Single,
    >(self, n: nat, vloss_cnt: i32, explore: E, reduce: R) -> Tree
        decreases n,
    {
        if n == 0 {
            self
        } else {
            let before = self.probed((n - 1) as nat, vloss_cnt, explore, reduce);
            before.with_loss(before.walk(false, explore, reduce).0, vloss_cnt as int)
        }
    }

    /// The path that the next probe takes after `n` of them.
    pub open spec fn next_path<
        E: Fn(Single, Single, i64, i64) -> Single,
        R: Fn(Single, i64) -> Single,
    >(self, n: nat, vloss_cnt: i32, explore: E, reduce: R) -> Seq<(Color, usize)> {
        self.probed(n, vloss_cnt, explore, reduce).walk(false, explore, reduce).0
    }

    /// The first move of the path that the next probe takes after `n` of them.
    pub open spec fn next_move<
        E: Fn(Single, Single, i64, i64) -> Single,
        R: Fn(Single, i64) -> Single,
    >(self, n: nat, vloss_cnt: i32, explore: E, reduce: R) -> int {
        self.next_path(n, vloss_cnt, explore, reduce)[0].1 as int
    }

    /// Whether each of the first `k` probes gives a path.
    pub open spec fn all_succeed<
        E: Fn(Single, Single, i64, i64) -> Single,
        R: Fn(Single, i64) -> Single,
    >(self, k: nat, vloss_cnt: i32, explore: E, reduce: R) -> bool {
        forall|j: nat|
            j < k ==> (#[trigger] self.probed(j, vloss_cnt, explore, reduce)).walk(
                false,
                explore,
                reduce,
            ).1
    }

    /// Whether the given move was taken by one of the first `n` probes.
    pub open spec fn is_taken<
        E: Fn(Single, Single, i64, i64) -> Single,
        R: Fn(Single, i64) -> Single,
    >(self, i: int, n: nat, vloss_cnt: i32, explore: E, reduce: R) -> bool {
        exists|j: nat| j < n && #[trigger] self.next_move(j, vloss_cnt, explore, reduce) == i
    }
}

/// A probe into a node without sub-trees takes one move, which is not being expanded.
proof fn lemma_shallow_probe<
    E: Fn(Single, Single, i64, i64) -> Single,
    R: Fn(Single, i64) -> Single,
>(tree: Tree, loss: int, explore: E, reduce: R) -> (i: int)
    requires
        tree.wf(),
        tree.walk(false, explore, reduce).1,
        forall|j: int| (#[trigger] tree.edge(j)).child is None,
    ensures
        0 <= i < MOVES,
        tree.choice(false, explore, reduce) == Some(i),
        !tree.edge(i).is_pending(),
        tree.walk(false, explore, reduce).0 == seq![(tree.color, i as usize)],
        ({
            let next = tree.with_loss(tree.walk(false, explore, reduce).0, loss);
            &&& next.wf()
            &&& tree.same_but(next, i)
            &&& next.total_count == tree.total_count
            &&& next.vtotal_count == (tree.vtotal_count + loss) as i32
            &&& next.edge(i) == tree.edge(i).taken(loss)
        }),
{
    lemma_choice(tree, false, explore, reduce);
    let i = tree.choice(false, explore, reduce)->0;
    assert(tree.edge(i).child is None);
    let path = seq![(tree.color, i as usize)];
    assert(tree.walk(false, explore, reduce).0 == path);
    law_walk(tree, false, explore, reduce);
    law_probe_step(tree, path, loss, 0);
    lemma_with_loss(tree, path, loss, path);
    assert(tree.with_loss(path, loss).below(path, 0) == tree.with_loss(path, loss));
    assert(tree.below(path, 0) == tree);
    i
}

/// What the first `k` probes into a fresh node leave behind.
#[verifier::spinoff_prover]
#[verifier::rlimit(40)]
proof fn lemma_series<
    E: Fn(Single, Single, i64, i64) -> Single,
    R: Fn(Single, i64) -> Single,
>(
    color: Color,
    value: Single,
    prior: Seq<Single>,
    k: nat,
    vloss_cnt: i32,
    explore: E,
    reduce: R,
)
    requires
        Tree::leaf(color, value, prior).all_succeed(k, vloss_cnt, explore, reduce),
        i16::MIN <= vloss_cnt <= i16::MAX,
        i32::MIN <= k * vloss_cnt <= i32::MAX,
    ensures
        ({
            let leaf = Tree::leaf(color, value, prior);
            let tree = leaf.probed(k, vloss_cnt, explore, reduce);
            &&& tree.wf()
            &&& tree.color == leaf.color
            &&& tree.initial_value == leaf.initial_value
            &&& tree.prior == leaf.prior
            &&& tree.pass_count == 0
            &&& tree.total_count == 0
            &&& tree.vtotal_count == k * vloss_cnt
            &&& forall|i: int|
                (#[trigger] tree.edge(i)) == if leaf.is_taken(i, k, vloss_cnt, explore, reduce) {
                    Edge {
                        vcount: vloss_cnt as i16,
                        expanding: true,
                        ..Edge::blank(value)
                    }
                } else {
                    Edge::blank(value)
                }
            &&& forall|j: nat|
                j < k ==> {
                    &&& (#[trigger] leaf.next_path(j, vloss_cnt, explore, reduce)).len() == 1
                    &&& 0 <= leaf.next_move(j, vloss_cnt, explore, reduce) < MOVES
                }
            &&& forall|i: nat, j: nat|
                i < j < k ==> #[trigger] leaf.next_move(i, vloss_cnt, explore, reduce)
                    != #[trigger] leaf.next_move(j, vloss_cnt, explore, reduce)
        }),
    decreases k,
{
    let leaf = Tree::leaf(color, value, prior);
    let tree = leaf.probed(k, vloss_cnt, explore, reduce);
    if k == 0 {
        lemma_leaf_wf(leaf);
        assert(k * vloss_cnt == 0) by (nonlinear_arith)
            requires
                k == 0,
        ;
        assert forall|i: int| #[trigger] tree.edge(i) == Edge::blank(value) by {
            assert(!leaf.kids.has(i));
        }
    } else {
        let n = (k - 1) as nat;
        let was = leaf.probed(n, vloss_cnt, explore, reduce);
        assert(k * vloss_cnt == n * vloss_cnt + vloss_cnt) by (nonlinear_arith)
            requires
                k == n + 1,
        ;
        assert(i32::MIN <= n * vloss_cnt <= i32::MAX) by (nonlinear_arith)
            requires
                k == n + 1,
                i32::MIN <= k * vloss_cnt <= i32::MAX,
                n >= 0,
        ;
        lemma_series(color, value, prior, n, vloss_cnt, explore, reduce);
        assert(was.walk(false, explore, reduce).1);
        let i = lemma_shallow_probe(was, vloss_cnt as int, explore, reduce);
        assert(leaf.next_path(n, vloss_cnt, explore, reduce).len() == 1);
        assert(leaf.next_move(n, vloss_cnt, explore, reduce) == i);
        assert(!leaf.is_taken(i, n, vloss_cnt, explore, reduce));
        assert(was.edge(i) == Edge::blank(value));
        assert forall|j: int|
            (#[trigger] tree.edge(j)) == if leaf.is_taken(j, k, vloss_cnt, explore, reduce) {
                Edge { vcount: vloss_cnt as i16, expanding: true, ..Edge::blank(value) }
            } else {
                Edge::blank(value)
            } by {
            if j == i {
                assert(leaf.is_taken(j, k, vloss_cnt, explore, reduce));
            } else {
                assert(tree.edge(j) == was.edge(j));
                if leaf.is_taken(j, n, vloss_cnt, explore, reduce) {
                    let m = choose|m: nat|
                        m < n && #[trigger] leaf.next_move(m, vloss_cnt, explore, reduce) == j;
                    assert(m < k && leaf.next_move(m, vloss_cnt, explore, reduce) == j);
                }
                if leaf.is_taken(j, k, vloss_cnt, explore, reduce) {
                    let m = choose|m: nat|
                        m < k && #[trigger] leaf.next_move(m, vloss_cnt, explore, reduce) == j;
                    assert(m != n);
                    assert(m < n && leaf.next_move(m, vloss_cnt, explore, reduce) == j);
                }
            }
        }
        assert forall|a: nat, b: nat| a < b < k implies #[trigger] leaf.next_move(
            a,
            vloss_cnt,
            explore,
            reduce,
        ) != #[trigger] leaf.next_move(b, vloss_cnt, explore, reduce) by {
            if b == n {
                assert(a < n);
            }
        }
    }
}

/// A series of probes into a fresh node takes one move each, never the same one twice, and
/// leaves one virtual loss on each of them and as many on the node as there were probes. A
/// probe that fails after that changes nothing.
pub proof fn law_series<
    E: Fn(Single, Single, i64, i64) -> Single,
    R: Fn(Single, i64) -> Single,
>(
    color: Color,
    value: Single,
    prior: Seq<Single>,
    k: nat,
    vloss_cnt: i32,
    explore: E,
    reduce: R,
)
    requires
        Tree::leaf(color, value, prior).all_succeed(k, vloss_cnt, explore, reduce),
        i16::MIN <= vloss_cnt <= i16::MAX,
        i32::MIN <= k * vloss_cnt <= i32::MAX,
    ensures
        ({
            let leaf = Tree::leaf(color, value, prior);
            let tree = leaf.probed(k, vloss_cnt, explore, reduce);
            &&& tree.vtotal_count == k * vloss_cnt
            &&& tree.total_count == 0
            &&& forall|j: nat|
                j < k ==> {
                    &&& (#[trigger] leaf.next_path(j, vloss_cnt, explore, reduce)).len() == 1
                    &&& 0 <= leaf.next_move(j, vloss_cnt, explore, reduce) < MOVES
                    &&& tree.edge(leaf.next_move(j, vloss_cnt, explore, reduce)).vcount
                        == vloss_cnt
                    &&& tree.edge(leaf.next_move(j, vloss_cnt, explore, reduce)).count == 0
                }
            &&& forall|i: nat, j: nat|
                i < j < k ==> #[trigger] leaf.next_move(i, vloss_cnt, explore, reduce)
                    != #[trigger] leaf.next_move(j, vloss_cnt, explore, reduce)
            &&& !tree.walk(false, explore, reduce).1 ==> tree.with_loss(
                tree.walk(false, explore, reduce).0,
                0,
            ) == tree
        }),
{
    let leaf = Tree::leaf(color, value, prior);
    let tree = leaf.probed(k, vloss_cnt, explore, reduce);
    lemma_series(color, value, prior, k, vloss_cnt, explore, reduce);
    assert forall|j: nat| j < k implies {
        &&& (#[trigger] leaf.next_path(j, vloss_cnt, explore, reduce)).len() == 1
        &&& 0 <= leaf.next_move(j, vloss_cnt, explore, reduce) < MOVES
        &&& tree.edge(leaf.next_move(j, vloss_cnt, explore, reduce)).vcount == vloss_cnt
        &&& tree.edge(leaf.next_move(j, vloss_cnt, explore, reduce)).count == 0
    } by {
        let i = leaf.next_move(j, vloss_cnt, explore, reduce);
        assert(leaf.is_taken(i, k, vloss_cnt, explore, reduce));
        assert(tree.edge(i).vcount == vloss_cnt as i16);
    }
    lemma_choice(tree, false, explore, reduce);
    if !tree.walk(false, explore, reduce).1 {
        if let Some(i) = tree.choice(false, explore, reduce) {
            assert(tree.edge(i).child is None);
        }
        assert(tree.walk(false, explore, reduce).0 == Seq::<(Color, usize)>::empty());
    }
}

/// The score that a move which was not taken has after `n` probes.
pub open spec fn untaken_score<E: Fn(Single, Single, i64, i64) -> Single>(
    value: Single,
    prior: Seq<Single>,
    n: nat,
    vloss_cnt: i32,
    explore: E,
    i: int,
) -> Single {
    explored(explore, value, prior[i], (n * vloss_cnt) as i64, 0)
}

/// Whether, after `n` probes, of any two of the moves that were not taken the one with the
/// larger prior has the larger score.
pub open spec fn tells_apart<E: Fn(Single, Single, i64, i64) -> Single>(
    value: Single,
    prior: Seq<Single>,
    n: nat,
    vloss_cnt: i32,
    explore: E,
) -> bool {
    forall|i: int, j: int|
        0 <= i < MOVES && 0 <= j < MOVES && prior[i].key_spec() < prior[j].key_spec()
            && prior[j].is_eligible() ==> {
            let lower = #[trigger] untaken_score(value, prior, n, vloss_cnt, explore, i);
            let upper = #[trigger] untaken_score(value, prior, n, vloss_cnt, explore, j);
            upper.is_eligible() && lower.key_spec() < upper.key_spec()
        }
}

/// A series of probes into a fresh node takes the moves by decreasing prior, where the bonus
/// tells the priors of the node apart.
pub proof fn law_series_order<
    E: Fn(Single, Single, i64, i64) -> Single,
    R: Fn(Single, i64) -> Single,
>(
    color: Color,
    value: Single,
    prior: Seq<Single>,
    k: nat,
    vloss_cnt: i32,
    explore: E,
    reduce: R,
)
    requires
        Tree::leaf(color, value, prior).all_succeed(k, vloss_cnt, explore, reduce),
        i16::MIN <= vloss_cnt <= i16::MAX,
        i32::MIN <= k * vloss_cnt <= i32::MAX,
        forall|i: int| 0 <= i < MOVES ==> !(#[trigger] prior[i]).is_nan_spec(),
        forall|n: nat| n < k ==> #[trigger] tells_apart(value, prior, n, vloss_cnt, explore),
    ensures
        ({
            let leaf = Tree::leaf(color, value, prior);
            forall|a: nat, b: nat|
                a <= b < k ==> prior[#[trigger] leaf.next_move(
                    b,
                    vloss_cnt,
                    explore,
                    reduce,
                )].key_spec() <= prior[#[trigger] leaf.next_move(
                    a,
                    vloss_cnt,
                    explore,
                    reduce,
                )].key_spec()
        }),
{
    let leaf = Tree::leaf(color, value, prior);
    assert forall|a: nat, b: nat| a <= b < k implies prior[#[trigger] leaf.next_move(
        b,
        vloss_cnt,
        explore,
        reduce,
    )].key_spec() <= prior[#[trigger] leaf.next_move(
        a,
        vloss_cnt,
        explore,
        reduce,
    )].key_spec() by {
        lemma_series_pair(color, value, prior, k, vloss_cnt, explore, reduce, a, b);
    }
}

/// Of two probes of a series, the later one takes a move whose prior is not larger.
proof fn lemma_series_pair<
    E: Fn(Single, Single, i64, i64) -> Single,
    R: Fn(Single, i64) -> Single,
>(
    color: Color,
    value: Single,
    prior: Seq<Single>,
    k: nat,
    vloss_cnt: i32,
    explore: E,
    reduce: R,
    a: nat,
    b: nat,
)
    requires
        Tree::leaf(color, value, prior).all_succeed(k, vloss_cnt, explore, reduce),
        i16::MIN <= vloss_cnt <= i16::MAX,
        i32::MIN <= k * vloss_cnt <= i32::MAX,
        a <= b < k,
        forall|i: int| 0 <= i < MOVES ==> !(#[trigger] prior[i]).is_nan_spec(),
        tells_apart(value, prior, a, vloss_cnt, explore),
    ensures
        ({
            let leaf = Tree::leaf(color, value, prior);
            prior[leaf.next_move(b, vloss_cnt, explore, reduce)].key_spec() <= prior[leaf.next_move(
                a,
                vloss_cnt,
                explore,
                reduce,
            )].key_spec()
        }),
{
    let leaf = Tree::leaf(color, value, prior);
    lemma_series(color, value, prior, k, vloss_cnt, explore, reduce);
    assert(i32::MIN <= a * vloss_cnt <= i32::MAX) by (nonlinear_arith)
        requires
            0 <= a <= k,
            i32::MIN <= k * vloss_cnt <= i32::MAX,
    ;
    lemma_series(color, value, prior, a, vloss_cnt, explore, reduce);
    assert(leaf.next_path(a, vloss_cnt, explore, reduce).len() == 1);
    assert(leaf.next_path(b, vloss_cnt, explore, reduce).len() == 1);
    let i = leaf.next_move(a, vloss_cnt, explore, reduce);
    let j = leaf.next_move(b, vloss_cnt, explore, reduce);
    let tree = leaf.probed(a, vloss_cnt, explore, reduce);
    assert(tree.walk(false, explore, reduce).1);
    lemma_choice(tree, false, explore, reduce);
    assert(tree.choice(false, explore, reduce) == Some(i));
    if a < b {
        assert(!leaf.is_taken(i, a, vloss_cnt, explore, reduce)) by {
            if leaf.is_taken(i, a, vloss_cnt, explore, reduce) {
                assert(tree.edge(i).is_pending());
            }
        }
        assert(!leaf.is_taken(j, a, vloss_cnt, explore, reduce)) by {
            if leaf.is_taken(j, a, vloss_cnt, explore, reduce) {
                let m = choose|m: nat|
                    m < a && #[trigger] leaf.next_move(m, vloss_cnt, explore, reduce) == j;
                assert(m < b < k);
            }
        }
        assert(tree.edge(i) == Edge::blank(value));
        assert(tree.edge(j) == Edge::blank(value));
        let scores = tree.scores(false, explore, reduce);
        let n = tree.visits();
        assert(n == a * vloss_cnt);
        assert(scores[i] == untaken_score(value, prior, a, vloss_cnt, explore, i));
        assert(scores[j] == untaken_score(value, prior, a, vloss_cnt, explore, j));
        assert(is_argmax_single(scores, i));
        if prior[i].key_spec() < prior[j].key_spec() {
            assert(prior[j].is_eligible());
            assert(scores[j].is_eligible());
        }
    }
}

} // verus!
