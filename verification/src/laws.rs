//! What holds of a search as a whole: of a probe and the insertion that follows it, of
//! several probes at the same time, and of moves that were removed.

use crate::arithmetic::{averaged, complemented, explored};
use crate::best::lemma_popular_visited;
use crate::color::Color;
use crate::double::Double;
use crate::insert::lemma_attached;
use crate::model::{
    is_padded, lemma_put, lemma_put_same, lemma_put_wf, lemma_same_kids_wf, lemma_slot_of, Edge,
    Kids, Tree, MOVES, PADDED, PASS,
};
use crate::search::{lemma_vcount_undo, lemma_vtotal_undo};
use crate::select::lemma_choice;
use crate::single::{
    argmax_count_spec, argmax_single_spec, is_argmax_single, lemma_argmax_count, Single,
};
use vstd::prelude::*;

verus! {

impl Tree {
    /// The node that is reached after `k` steps along the path.
    pub open spec fn below(self, path: Seq<(Color, usize)>, k: nat) -> Tree
        decreases k,
    {
        if k == 0 {
            self
        } else {
            self.edge(path[0].1 as int).child->0.below(path.drop_first(), (k - 1) as nat)
        }
    }

    /// The edge at the end of the path.
    pub open spec fn end(self, path: Seq<(Color, usize)>) -> Edge {
        self.below(path, (path.len() - 1) as nat).edge(path.last().1 as int)
    }

    /// Whether `other` is this node but for its counters, and for the edge of the given move.
    pub open spec fn same_but(self, other: Tree, i: int) -> bool {
        &&& other.color == self.color
        &&& other.initial_value == self.initial_value
        &&& other.pass_count == self.pass_count
        &&& other.prior == self.prior
        &&& forall|j: int| j != i ==> #[trigger] other.edge(j) == self.edge(j)
    }
}

/// A path goes on below its first move.
proof fn lemma_below(tree: Tree, path: Seq<(Color, usize)>, k: nat)
    requires
        tree.is_path(path),
        k < path.len(),
    ensures
        k > 0 ==> {
            let child = tree.edge(path[0].1 as int).child->0;
            &&& tree.edge(path[0].1 as int).child is Some
            &&& child.is_path(path.drop_first())
            &&& tree.below(path, k) == child.below(path.drop_first(), (k - 1) as nat)
            &&& path.drop_first()[k - 1] == path[k as int]
        },
{
}

/// A probe changes, of each node on its way, only the number of virtual losses, and, of the
/// move that it takes, the number of virtual losses and the mark that it is being expanded.
/// In particular, it changes neither a number of visits nor a value, nor anything below the
/// last move.
pub proof fn law_probe_step(tree: Tree, path: Seq<(Color, usize)>, loss: int, k: nat)
    requires
        tree.wf(),
        tree.is_path(path),
        k < path.len(),
    ensures
        ({
            let a = tree.below(path, k);
            let b = tree.with_loss(path, loss).below(path, k);
            let i = path[k as int].1 as int;
            &&& a.same_but(b, i)
            &&& b.total_count == a.total_count
            &&& b.vtotal_count == (a.vtotal_count + loss) as i32
            &&& b.edge(i).count == a.edge(i).count
            &&& b.edge(i).value == a.edge(i).value
            &&& b.edge(i).vcount == (a.edge(i).vcount + loss) as i16
            &&& b.edge(i).expanding
            &&& b.edge(i).child is Some == a.edge(i).child is Some
            &&& k == path.len() - 1 ==> b.edge(i).child == a.edge(i).child
        }),
    decreases path.len(),
{
    let i = path[0].1 as int;
    let edge = tree.edge(i);
    let rest = path.drop_first();
    let child = match edge.child {
        Some(child) => Some(child.with_loss(rest, loss)),
        None => None,
    };
    if path.len() == 1 {
        assert(rest =~= Seq::empty());
    }
    let next = tree.with_loss(path, loss);
    lemma_put(tree.kids, i, Edge { child, ..edge.taken(loss) }, tree.initial_value);
    assert(next.edge(i) == Edge { child, ..edge.taken(loss) });
    assert forall|j: int| j != i implies #[trigger] next.edge(j) == tree.edge(j) by {
        assert(next.kids.edge(j, tree.initial_value) == tree.kids.edge(j, tree.initial_value));
    }
    if k > 0 {
        lemma_below(tree, path, k);
        assert(tree.edge(i).wf());
        law_probe_step(edge.child->0, rest, loss, (k - 1) as nat);
    }
}

/// A probe keeps a tree well formed, and keeps whether a path leads down the tree, and
/// whether one more visit can be counted on it.
pub proof fn lemma_with_loss(
    tree: Tree,
    path: Seq<(Color, usize)>,
    loss: int,
    other: Seq<(Color, usize)>,
)
    requires
        tree.wf(),
        tree.is_path(path),
    ensures
        tree.with_loss(path, loss).wf(),
        tree.with_loss(path, loss).is_path(other) == tree.is_path(other),
        tree.with_loss(path, loss).counts_fit(other) == tree.counts_fit(other),
        tree.with_loss(path, loss).passes_fit(other) == tree.passes_fit(other),
    decreases path.len(),
{
    if path.len() > 0 {
        let i = path[0].1 as int;
        let edge = tree.edge(i);
        let rest = path.drop_first();
        let next = tree.with_loss(path, loss);
        assert(edge.wf());
        let child = match edge.child {
            Some(child) => Some(child.with_loss(rest, loss)),
            None => None,
        };
        if edge.child is Some {
            if path.len() == 1 {
                assert(rest =~= Seq::empty());
            }
            lemma_with_loss(edge.child->0, rest, loss, other.drop_first());
        }
        let last = Edge { child, ..edge.taken(loss) };
        lemma_put_wf(tree, i, last);
        lemma_same_kids_wf(tree.put(i, last), next);
        if other.len() > 0 && other[0].1 as int != i {
            assert(next.edge(other[0].1 as int) == tree.edge(other[0].1 as int));
        }
    }
}

/// What a step along the path changes when a leaf is attached at its end.
proof fn lemma_attached_step(tree: Tree, path: Seq<(Color, usize)>, leaf: Tree, k: nat)
    requires
        tree.wf(),
        tree.is_path(path),
        leaf.kids == Kids::Sparse(Seq::empty()),
        is_padded(leaf.prior),
        k < path.len(),
    ensures
        ({
            let a = tree.below(path, k);
            let b = tree.attached(path, leaf).below(path, k);
            let i = path[k as int].1 as int;
            &&& a.same_but(b, i)
            &&& b.total_count == a.total_count
            &&& b.vtotal_count == a.vtotal_count
            &&& b.edge(i) == Edge { child: b.edge(i).child, ..a.edge(i) }
            &&& b.edge(i).child is Some
            &&& k == path.len() - 1 ==> b.edge(i).child->0 == match a.edge(i).child {
                Some(child) => child,
                None => a.leaf_for(i, leaf),
            }
        }),
    decreases path.len(),
{
    let i = path[0].1 as int;
    let edge = tree.edge(i);
    let rest = path.drop_first();
    let child = match edge.child {
        Some(child) => if path.len() == 1 {
            child
        } else {
            child.attached(rest, leaf)
        },
        None => tree.leaf_for(i, leaf),
    };
    let next = tree.attached(path, leaf);
    lemma_put(tree.kids, i, Edge { child: Some(child), ..edge }, tree.initial_value);
    assert(next.edge(i) == Edge { child: Some(child), ..edge });
    assert forall|j: int| j != i implies #[trigger] next.edge(j) == tree.edge(j) by {
        assert(next.kids.edge(j, tree.initial_value) == tree.kids.edge(j, tree.initial_value));
    }
    if k > 0 {
        lemma_below(tree, path, k);
        assert(tree.edge(i).wf());
        lemma_attached_step(edge.child->0, rest, leaf, (k - 1) as nat);
    }
}

/// What a step along the path changes when a value is backed up.
pub proof fn lemma_updated_step<C: Fn(Single) -> Single, A: Fn(Single, Single, i32) -> Single>(
    tree: Tree,
    path: Seq<(Color, usize)>,
    color: Color,
    value: Single,
    vloss_cnt: i32,
    complement: C,
    average: A,
    k: nat,
)
    requires
        tree.wf(),
        tree.leads(path),
        tree.counts_fit(path),
        k < path.len(),
    ensures
        ({
            let a = tree.below(path, k);
            let b = tree.updated(path, color, value, vloss_cnt, complement, average).below(path, k);
            let i = path[k as int].1 as int;
            &&& a.same_but(b, i)
            &&& b.total_count == a.total_count + 1
            &&& b.vtotal_count == (a.vtotal_count - vloss_cnt) as i32
            &&& b.edge(i).count == a.edge(i).count + 1
            &&& b.edge(i).vcount == (a.edge(i).vcount - vloss_cnt) as i16
            &&& a.color == color ==> b.edge(i).value == averaged(
                average,
                a.edge(i).value,
                value,
                (a.edge(i).count + 1) as i32,
            )
            &&& a.color != color ==> b.edge(i).value == averaged(
                average,
                a.edge(i).value,
                complemented(complement, value),
                (a.edge(i).count + 1) as i32,
            )
            &&& b.edge(i).expanding == a.edge(i).expanding
            &&& b.edge(i).child is Some
            &&& a.edge(i).child is Some
            &&& k == path.len() - 1 ==> b.edge(i).child == a.edge(i).child
        }),
    decreases path.len(),
{
    let i = path[0].1 as int;
    let edge = tree.edge(i);
    let rest = path.drop_first();
    let count = (edge.count + 1) as i32;
    let child = edge.child->0.updated(rest, color, value, vloss_cnt, complement, average);
    let last = Edge {
        count,
        vcount: (edge.vcount - vloss_cnt) as i16,
        value: averaged(average, edge.value, tree.own_value(color, value, complement), count),
        child: Some(child),
        ..edge
    };
    let next = tree.updated(path, color, value, vloss_cnt, complement, average);
    lemma_put(tree.kids, i, last, tree.initial_value);
    assert(next.edge(i) == last);
    assert forall|j: int| j != i implies #[trigger] next.edge(j) == tree.edge(j) by {
        assert(next.kids.edge(j, tree.initial_value) == tree.kids.edge(j, tree.initial_value));
    }
    if path.len() == 1 {
        assert(rest =~= Seq::empty());
    }
    if k > 0 {
        assert(tree.edge(i).wf());
        lemma_updated_step(
            edge.child->0,
            rest,
            color,
            value,
            vloss_cnt,
            complement,
            average,
            (k - 1) as nat,
        );
    }
}

/// An insertion counts one more visit, and takes one virtual loss back, at each node on the
/// path, and does the same for the move that was taken there, whose value becomes the average
/// over one more visit. What is averaged in is the value itself at each node of the player
/// whose value it is, and its complement at each node of the other player. Nothing else of
/// these nodes changes.
pub proof fn law_insert_step<C: Fn(Single) -> Single, A: Fn(Single, Single, i32) -> Single>(
    tree: Tree,
    path: Seq<(Color, usize)>,
    color: Color,
    value: Single,
    prior: Seq<Single>,
    vloss_cnt: i32,
    complement: C,
    average: A,
    k: nat,
)
    requires
        tree.wf(),
        tree.is_open(path),
        k < path.len(),
    ensures
        ({
            let a = tree.below(path, k);
            let b = tree.inserted(
                path,
                color,
                value,
                prior,
                vloss_cnt,
                complement,
                average,
            ).below(path, k);
            let i = path[k as int].1 as int;
            &&& a.same_but(b, i)
            &&& b.total_count == a.total_count + 1
            &&& b.vtotal_count == (a.vtotal_count - vloss_cnt) as i32
            &&& b.edge(i).count == a.edge(i).count + 1
            &&& b.edge(i).vcount == (a.edge(i).vcount - vloss_cnt) as i16
            &&& a.color == color ==> b.edge(i).value == averaged(
                average,
                a.edge(i).value,
                value,
                (a.edge(i).count + 1) as i32,
            )
            &&& a.color != color ==> b.edge(i).value == averaged(
                average,
                a.edge(i).value,
                complemented(complement, value),
                (a.edge(i).count + 1) as i32,
            )
            &&& b.edge(i).expanding == a.edge(i).expanding
            &&& b.edge(i).child is Some
        }),
{
    let leaf = Tree::leaf(color, value, prior);
    lemma_attached(tree, path, leaf);
    lemma_attached_step(tree, path, leaf, k);
    lemma_updated_step(
        tree.attached(path, leaf),
        path,
        color,
        value,
        vloss_cnt,
        complement,
        average,
        k,
    );
    let a = tree.below(path, k);
    let b = tree.attached(path, leaf).below(path, k);
    let c = tree.inserted(path, color, value, prior, vloss_cnt, complement, average).below(path, k);
    let i = path[k as int].1 as int;
    assert forall|j: int| j != i implies #[trigger] c.edge(j) == a.edge(j) by {
        assert(b.edge(j) == a.edge(j));
    }
}

/// The node at which the path ends can count one more pass, if the last move is one.
proof fn lemma_end_passes(tree: Tree, path: Seq<(Color, usize)>)
    requires
        tree.is_path(path),
        tree.passes_fit(path),
        path.len() > 0,
    ensures
        path.last().1 == PASS ==> tree.below(path, (path.len() - 1) as nat).pass_count < i16::MAX,
    decreases path.len(),
{
    if path.len() > 1 {
        let rest = path.drop_first();
        assert(rest.last() == path.last());
        lemma_end_passes(tree.edge(path[0].1 as int).child->0, rest);
    }
}

/// What was inserted is what is found at the end of the path: a leaf with the given color,
/// value and prior, with one more pass in a row if the last move is a pass. Where there was a
/// sub-tree already, it stays as it was.
pub proof fn law_insert_end<C: Fn(Single) -> Single, A: Fn(Single, Single, i32) -> Single>(
    tree: Tree,
    path: Seq<(Color, usize)>,
    color: Color,
    value: Single,
    prior: Seq<Single>,
    vloss_cnt: i32,
    complement: C,
    average: A,
)
    requires
        tree.wf(),
        tree.is_open(path),
        path.len() > 0,
    ensures
        ({
            let next = tree.inserted(path, color, value, prior, vloss_cnt, complement, average);
            let parent = tree.below(path, (path.len() - 1) as nat);
            &&& next.end(path).child == Some(
                match tree.end(path).child {
                    Some(child) => child,
                    None => parent.leaf_for(
                        path.last().1 as int,
                        Tree::leaf(color, value, prior),
                    ),
                },
            )
            &&& tree.end(path).child is None ==> {
                let leaf = next.end(path).child->0;
                &&& leaf.color == color
                &&& leaf.initial_value == value
                &&& leaf.pass_count == if path.last().1 == PASS {
                    parent.pass_count + 1
                } else {
                    0
                }
                &&& leaf.total_count == 0
                &&& leaf.vtotal_count == 0
                &&& leaf.prior.len() == PADDED
                &&& forall|i: int| 0 <= i < MOVES ==> #[trigger] leaf.prior[i] == prior[i]
                &&& forall|i: int| #[trigger] leaf.edge(i) == Edge::blank(value)
            }
        }),
{
    lemma_end_passes(tree, path);
    assert forall|kids: Kids, i: int|
        kids == Kids::Sparse(Seq::empty()) implies !#[trigger] kids.has(i) by {}
    let leaf = Tree::leaf(color, value, prior);
    let k = (path.len() - 1) as nat;
    lemma_attached(tree, path, leaf);
    lemma_attached_step(tree, path, leaf, k);
    lemma_updated_step(
        tree.attached(path, leaf),
        path,
        color,
        value,
        vloss_cnt,
        complement,
        average,
        k,
    );
}

/// A leaf that is inserted below a move of the root is what moving forward to that move
/// gives.
pub proof fn law_insert_forward<C: Fn(Single) -> Single, A: Fn(Single, Single, i32) -> Single>(
    tree: Tree,
    i: usize,
    color: Color,
    value: Single,
    prior: Seq<Single>,
    vloss_cnt: i32,
    complement: C,
    average: A,
)
    requires
        tree.wf(),
        tree.is_open(seq![(tree.color, i)]),
        tree.edge(i as int).child is None,
    ensures
        tree.inserted(
            seq![(tree.color, i)],
            color,
            value,
            prior,
            vloss_cnt,
            complement,
            average,
        ).forwarded(i as int) == Some(tree.leaf_for(i as int, Tree::leaf(color, value, prior))),
{
    let path = seq![(tree.color, i)];
    law_insert_end(tree, path, color, value, prior, vloss_cnt, complement, average);
    assert(path.last() == path[0]);
}

/// Once the node that a probe has reached is inserted, each node on the path has one visit
/// more than before the probe, and so has the move that was taken there, and both have the
/// virtual losses that they had before the probe. All other edges are as before the probe.
pub proof fn law_probe_insert<C: Fn(Single) -> Single, A: Fn(Single, Single, i32) -> Single>(
    tree: Tree,
    path: Seq<(Color, usize)>,
    color: Color,
    value: Single,
    prior: Seq<Single>,
    vloss_cnt: i32,
    complement: C,
    average: A,
    k: nat,
)
    requires
        tree.wf(),
        tree.is_open(path),
        k < path.len(),
    ensures
        tree.with_loss(path, vloss_cnt as int).is_open(path),
        ({
            let a = tree.below(path, k);
            let b = tree.with_loss(path, vloss_cnt as int).inserted(
                path,
                color,
                value,
                prior,
                vloss_cnt,
                complement,
                average,
            ).below(path, k);
            let i = path[k as int].1 as int;
            &&& a.same_but(b, i)
            &&& b.total_count == a.total_count + 1
            &&& b.vtotal_count == a.vtotal_count
            &&& b.edge(i).count == a.edge(i).count + 1
            &&& b.edge(i).vcount == a.edge(i).vcount
        }),
{
    let probed = tree.with_loss(path, vloss_cnt as int);
    lemma_with_loss(tree, path, vloss_cnt as int, path);
    law_probe_step(tree, path, vloss_cnt as int, k);
    law_insert_step(probed, path, color, value, prior, vloss_cnt, complement, average, k);
    let a = tree.below(path, k);
    let b = probed.below(path, k);
    let c = probed.inserted(path, color, value, prior, vloss_cnt, complement, average).below(
        path,
        k,
    );
    let i = path[k as int].1 as int;
    lemma_vcount_undo(a.edge(i).vcount, vloss_cnt);
    lemma_vtotal_undo(a.vtotal_count, vloss_cnt);
    assert forall|j: int| j != i implies #[trigger] c.edge(j) == a.edge(j) by {
        assert(b.edge(j) == a.edge(j));
    }
}

/// The path of a search leads down the tree, and names the player of each node. If the search
/// comes to an end, then the path has at least one edge, and the last one is not being
/// expanded already; if it does not, then every edge of the path has a sub-tree.
///
/// The move that is taken at each node is the one that is chosen there, with the first play
/// urgency below the first node. A search goes on until the game is over, with a second pass
/// in a row, or there is nothing below the move; it fails only at a node from which no move is
/// chosen.
pub proof fn law_walk<E: Fn(Single, Single, i64, i64) -> Single, R: Fn(Single, i64) -> Single>(
    tree: Tree,
    apply_fpu: bool,
    explore: E,
    reduce: R,
)
    ensures
        ({
            let walk = tree.walk(apply_fpu, explore, reduce);
            &&& tree.is_path(walk.0)
            &&& forall|k: int|
                0 <= k < walk.0.len() ==> (#[trigger] walk.0[k]).0 == tree.below(
                    walk.0,
                    k as nat,
                ).color
            &&& walk.1 ==> walk.0.len() > 0 && !tree.end(walk.0).is_pending()
            &&& !walk.1 ==> tree.leads(walk.0)
            &&& forall|k: int|
                0 <= k < walk.0.len() ==> tree.below(walk.0, k as nat).choice(
                    apply_fpu || k > 0,
                    explore,
                    reduce,
                ) == Some((#[trigger] walk.0[k]).1 as int)
            &&& forall|k: int|
                0 <= k < walk.0.len() - 1 ==> (#[trigger] walk.0[k]).1 != PASS || tree.below(
                    walk.0,
                    k as nat,
                ).pass_count < 1
            &&& walk.1 ==> tree.end(walk.0).child is None || (walk.0.last().1 == PASS
                && tree.below(walk.0, (walk.0.len() - 1) as nat).pass_count >= 1)
            &&& !walk.1 ==> {
                &&& walk.0.len() > 0 ==> walk.0.last().1 != PASS || tree.below(
                    walk.0,
                    (walk.0.len() - 1) as nat,
                ).pass_count < 1
                &&& tree.below(walk.0, walk.0.len()).choice(
                    apply_fpu || walk.0.len() > 0,
                    explore,
                    reduce,
                ) is None
            }
        }),
    decreases tree,
{
    lemma_choice(tree, apply_fpu, explore, reduce);
    let walk = tree.walk(apply_fpu, explore, reduce);
    if let Some(i) = tree.choice(apply_fpu, explore, reduce) {
        let here = seq![(tree.color, i as usize)];
        let edge = tree.edge(i);
        if (i == PASS && tree.pass_count >= 1) || edge.child is None {
            assert(walk.0 == here);
        } else {
            let child = edge.child->0;
            let rest = child.walk(true, explore, reduce);
            law_walk(child, true, explore, reduce);
            assert(walk.0 == here + rest.0);
            assert(walk.0.drop_first() =~= rest.0);
            assert forall|k: int| 0 <= k < walk.0.len() implies (#[trigger] walk.0[k]).0
                == tree.below(walk.0, k as nat).color by {
                if k > 0 {
                    assert(walk.0[k] == rest.0[k - 1]);
                    assert(tree.below(walk.0, k as nat) == child.below(rest.0, (k - 1) as nat));
                }
            }
            assert forall|k: int| 0 <= k < walk.0.len() implies tree.below(
                walk.0,
                k as nat,
            ).choice(apply_fpu || k > 0, explore, reduce) == Some(
                (#[trigger] walk.0[k]).1 as int,
            ) by {
                if k > 0 {
                    assert(walk.0[k] == rest.0[k - 1]);
                    assert(tree.below(walk.0, k as nat) == child.below(rest.0, (k - 1) as nat));
                }
            }
            assert forall|k: int| 0 <= k < walk.0.len() - 1 implies (#[trigger] walk.0[k]).1
                != PASS || tree.below(walk.0, k as nat).pass_count < 1 by {
                if k > 0 {
                    assert(walk.0[k] == rest.0[k - 1]);
                    assert(tree.below(walk.0, k as nat) == child.below(rest.0, (k - 1) as nat));
                }
            }
            assert(tree.below(walk.0, walk.0.len()) == child.below(rest.0, rest.0.len()));
            if rest.0.len() > 0 {
                assert(walk.0.last() == rest.0.last());
                assert(tree.end(walk.0) == child.end(rest.0));
                assert(tree.below(walk.0, (walk.0.len() - 1) as nat) == child.below(
                    rest.0,
                    (rest.0.len() - 1) as nat,
                ));
            }
        }
    }
}

/// A node that is being expanded is not reached again: as long as the edge at the end of a
/// path has no sub-tree, and is marked, no search takes that path to its end.
pub proof fn law_no_revisit<
    E: Fn(Single, Single, i64, i64) -> Single,
    R: Fn(Single, i64) -> Single,
>(tree: Tree, path: Seq<(Color, usize)>, apply_fpu: bool, explore: E, reduce: R)
    requires
        tree.wf(),
        path.len() > 0,
        tree.end(path).is_pending(),
    ensures
        tree.walk(apply_fpu, explore, reduce) != (path, true),
{
    law_walk(tree, apply_fpu, explore, reduce);
}

/// A probe that reaches a move without a sub-tree marks this move as being expanded, so that
/// the next probe does not return the same path.
pub proof fn law_probe_marks<
    E: Fn(Single, Single, i64, i64) -> Single,
    R: Fn(Single, i64) -> Single,
>(tree: Tree, path: Seq<(Color, usize)>, loss: int, apply_fpu: bool, explore: E, reduce: R)
    requires
        tree.wf(),
        path.len() > 0,
        tree.is_path(path),
        tree.end(path).child is None,
    ensures
        tree.with_loss(path, loss).end(path).is_pending(),
        tree.with_loss(path, loss).walk(apply_fpu, explore, reduce) != (path, true),
{
    law_probe_step(tree, path, loss, (path.len() - 1) as nat);
    lemma_with_loss(tree, path, loss, path);
    law_no_revisit(tree.with_loss(path, loss), path, apply_fpu, explore, reduce);
}

/// A path that leads through marked edges only is left as it is by a loss of nothing.
proof fn lemma_no_loss(tree: Tree, path: Seq<(Color, usize)>)
    requires
        tree.wf(),
        tree.is_settled(),
        tree.leads(path),
    ensures
        tree.with_loss(path, 0) == tree,
    decreases path.len(),
{
    if path.len() > 0 {
        let i = path[0].1 as int;
        let edge = tree.edge(i);
        assert(edge.wf());
        lemma_no_loss(edge.child->0, path.drop_first());
        lemma_vcount_undo(edge.vcount, 0);
        lemma_vtotal_undo(tree.vtotal_count, 0);
        assert(tree.kids.has(i));
        lemma_put_same(tree.kids, i, tree.initial_value);
    }
}

/// A probe that fails leaves a settled tree as it was: every virtual loss that it added on
/// its way is taken back.
pub proof fn law_failed_probe<
    E: Fn(Single, Single, i64, i64) -> Single,
    R: Fn(Single, i64) -> Single,
>(tree: Tree, apply_fpu: bool, explore: E, reduce: R)
    requires
        tree.wf(),
        tree.is_settled(),
        !tree.walk(apply_fpu, explore, reduce).1,
    ensures
        tree.with_loss(tree.walk(apply_fpu, explore, reduce).0, 0) == tree,
{
    law_walk(tree, apply_fpu, explore, reduce);
    lemma_no_loss(tree, tree.walk(apply_fpu, explore, reduce).0);
}

/// A path leads down a tree just as well once a leaf is attached to it.
proof fn lemma_attached_path(
    tree: Tree,
    path: Seq<(Color, usize)>,
    leaf: Tree,
    other: Seq<(Color, usize)>,
)
    requires
        tree.wf(),
        tree.is_path(path),
        tree.is_path(other),
    ensures
        tree.attached(path, leaf).is_path(other),
    decreases path.len(),
{
    if path.len() > 0 {
        let i = path[0].1 as int;
        let rest = path.drop_first();
        let edge = tree.edge(i);
        assert(edge.wf());
        let child = match edge.child {
            Some(child) => if path.len() == 1 {
                child
            } else {
                child.attached(rest, leaf)
            },
            None => tree.leaf_for(i, leaf),
        };
        let last = Edge { child: Some(child), ..edge };
        let next = tree.attached(path, leaf);
        lemma_put(tree.kids, i, last, tree.initial_value);
        if other.len() > 1 {
            let j = other[0].1 as int;
            if j != i {
                assert(next.kids.edge(j, tree.initial_value) == tree.kids.edge(
                    j,
                    tree.initial_value,
                ));
            } else if path.len() > 1 {
                lemma_attached_path(edge.child->0, rest, leaf, other.drop_first());
            }
        }
    }
}

/// A path leads down a tree just as well once a value is backed up.
proof fn lemma_updated_path<C: Fn(Single) -> Single, A: Fn(Single, Single, i32) -> Single>(
    tree: Tree,
    path: Seq<(Color, usize)>,
    color: Color,
    value: Single,
    vloss_cnt: i32,
    complement: C,
    average: A,
    other: Seq<(Color, usize)>,
)
    requires
        tree.wf(),
        tree.leads(path),
        tree.counts_fit(path),
        tree.is_path(other),
    ensures
        tree.updated(path, color, value, vloss_cnt, complement, average).is_path(other),
    decreases path.len(),
{
    if path.len() > 0 {
        let i = path[0].1 as int;
        let rest = path.drop_first();
        let edge = tree.edge(i);
        assert(edge.wf());
        let next = tree.updated(path, color, value, vloss_cnt, complement, average);
        let child = edge.child->0.updated(rest, color, value, vloss_cnt, complement, average);
        let count = (edge.count + 1) as i32;
        let last = Edge {
            count,
            vcount: (edge.vcount - vloss_cnt) as i16,
            value: averaged(average, edge.value, tree.own_value(color, value, complement), count),
            child: Some(child),
            ..edge
        };
        lemma_put(tree.kids, i, last, tree.initial_value);
        assert(next.edge(i) == last);
        if other.len() > 1 {
            let j = other[0].1 as int;
            if j != i {
                assert(next.kids.edge(j, tree.initial_value) == tree.kids.edge(
                    j,
                    tree.initial_value,
                ));
            } else {
                lemma_updated_path(
                    edge.child->0,
                    rest,
                    color,
                    value,
                    vloss_cnt,
                    complement,
                    average,
                    other.drop_first(),
                );
            }
        }
    }
}

/// A path that leads down a tree still does after an insertion at the end of another path, so
/// that several searches can be under way at the same time.
pub proof fn law_insert_path<C: Fn(Single) -> Single, A: Fn(Single, Single, i32) -> Single>(
    tree: Tree,
    path: Seq<(Color, usize)>,
    color: Color,
    value: Single,
    prior: Seq<Single>,
    vloss_cnt: i32,
    complement: C,
    average: A,
    other: Seq<(Color, usize)>,
)
    requires
        tree.wf(),
        tree.is_open(path),
        tree.is_path(other),
    ensures
        tree.inserted(path, color, value, prior, vloss_cnt, complement, average).is_path(other),
{
    let leaf = Tree::leaf(color, value, prior);
    lemma_attached(tree, path, leaf);
    lemma_attached_path(tree, path, leaf, other);
    lemma_updated_path(
        tree.attached(path, leaf),
        path,
        color,
        value,
        vloss_cnt,
        complement,
        average,
        other,
    );
}

/// A move that was removed is not chosen, where its value is taken as it is, and where a bonus
/// does not turn negative infinity into a number to be chosen. The first play urgency, which
/// is not applied at the root of a search, puts another value in its place.
pub proof fn law_disqualified_choice<
    E: Fn(Single, Single, i64, i64) -> Single,
    R: Fn(Single, i64) -> Single,
>(tree: Tree, index: int, explore: E, reduce: R)
    requires
        tree.wf(),
        0 <= index < MOVES,
        forall|prior: Single, n: i64, count: i64|
            !(#[trigger] explored(
                explore,
                Single::neg_infinity_spec(),
                prior,
                n,
                count,
            )).is_eligible(),
    ensures
        tree.disqualified(index).choice(false, explore, reduce) != Some(index),
{
    let next = tree.disqualified(index);
    lemma_put(
        tree.kids,
        index,
        Edge { value: Single::neg_infinity_spec(), count: 0, ..tree.edge(index) },
        tree.initial_value,
    );
    lemma_choice(next, false, explore, reduce);
    assert(next.urgencies(false, reduce)[index] == Single::neg_infinity_spec());
    assert(!next.scores(false, explore, reduce)[index].is_eligible());
}

/// A move that was removed is neither the best one, nor popular, as long as another move was
/// visited.
pub proof fn law_disqualified_best(tree: Tree, index: int, other: int)
    requires
        tree.wf(),
        0 <= index < MOVES,
        0 <= other < MOVES,
        other != index,
        tree.edge(other).count > 0,
    ensures
        !tree.disqualified(index).is_best(index),
        !tree.disqualified(index).popular().contains(index as usize),
{
    let next = tree.disqualified(index);
    assert(tree.edge(index).wf());
    lemma_put_wf(
        tree,
        index,
        Edge { value: Single::neg_infinity_spec(), count: 0, ..tree.edge(index) },
    );
    assert(next.edge(other) == tree.edge(other));
    assert(!next.prefers(index, other));
    assert(next.is_visited());
    lemma_popular_visited(next);
    if next.popular().contains(index as usize) {
        let k = choose|k: int| 0 <= k < next.popular().len() && next.popular()[k] == index as usize;
        assert(next.edge(next.popular()[k] as int).count > 0);
    }
}

/// The most visited move has at least as many visits as any other move.
pub proof fn law_busiest(tree: Tree, i: int)
    requires
        tree.wf(),
        0 <= i < MOVES,
    ensures
        0 <= tree.kids.busiest() < MOVES,
        tree.edge(i).count <= tree.edge(tree.kids.busiest()).count,
{
    let kids = tree.kids;
    let counts = kids.place_counts();
    lemma_argmax_count(counts);
    let k = argmax_count_spec(counts);
    if let Kids::Sparse(slots) = kids {
        assert forall|j: int| 0 <= j < slots.len() implies #[trigger] tree.edge(slots[j].0)
            == slots[j].1 by {
            assert(kids.slot_holds(j, slots[j].0));
            lemma_slot_of(kids, j, slots[j].0);
        }
        if k < slots.len() {
            assert(tree.edge(slots[k].0).count >= 0);
            assert(counts[k] == slots[k].1.count);
        } else if slots.len() > 0 {
            assert(tree.edge(slots[0].0).count >= 0);
            assert(counts[0] < counts[k]);
        }
        if kids.has(i) {
            let j = kids.slot_of(i);
            assert(kids.slot_holds(j, i));
            assert(counts[j] == slots[j].1.count);
            assert(counts[j] <= counts[k]);
        }
    } else {
        assert(counts[i] <= counts[k]);
    }
}

/// Of two moves with the same value, and as many visits, virtual ones included, the one with
/// the larger prior is chosen first, where the bonus tells these two priors apart.
pub proof fn law_prior_order<
    E: Fn(Single, Single, i64, i64) -> Single,
    R: Fn(Single, i64) -> Single,
>(tree: Tree, i: int, j: int, apply_fpu: bool, explore: E, reduce: R)
    requires
        0 <= j < MOVES,
        tree.choice(apply_fpu, explore, reduce) == Some(i),
        !tree.prior[i].is_nan_spec(),
        !tree.prior[j].is_nan_spec(),
        tree.urgencies(apply_fpu, reduce)[j] == tree.urgencies(apply_fpu, reduce)[i],
        tree.edge(j).visits() == tree.edge(i).visits(),
        tree.prior[i].key_spec() < tree.prior[j].key_spec() ==> {
            let value = tree.urgencies(apply_fpu, reduce)[i];
            let count = tree.edge(i).visits() as i64;
            let lower = explored(explore, value, tree.prior[i], tree.visits(), count);
            let upper = explored(explore, value, tree.prior[j], tree.visits(), count);
            upper.is_eligible() && lower.key_spec() < upper.key_spec()
        },
    ensures
        tree.prior[j].key_spec() <= tree.prior[i].key_spec(),
{
    lemma_choice(tree, apply_fpu, explore, reduce);
    let scores = tree.scores(apply_fpu, explore, reduce);
    let value = tree.urgencies(apply_fpu, reduce)[i];
    let count = tree.edge(i).visits() as i64;
    assert(scores[i] == explored(explore, value, tree.prior[i], tree.visits(), count));
    assert(scores[j] == explored(explore, value, tree.prior[j], tree.visits(), count));
}

/// The exploration bonus does not depend on whether a node is sparse or dense, and is applied
/// to the moves only.
pub proof fn law_bonus_storage<E: Fn(Single, Single, i64, i64) -> Single>(
    small: Tree,
    big: Tree,
    default: Single,
    value: Seq<Single>,
    explore: E,
)
    requires
        big.kids == small.kids.dense(default),
        big.total_count == small.total_count,
        big.vtotal_count == small.vtotal_count,
        big.prior == small.prior,
    ensures
        big.with_bonus(value, explore) == small.with_bonus(value, explore),
        forall|i: int|
            MOVES <= i < value.len() ==> #[trigger] small.with_bonus(value, explore)[i] == value[i],
{
    let a = small.with_bonus(value, explore);
    let b = big.with_bonus(value, explore);
    assert forall|i: int| 0 <= i < value.len() implies #[trigger] b[i] == a[i] by {
        if i < MOVES {
            assert(big.edge(i) == small.kids.edge(i, default));
        }
    }
    assert(b =~= a);
}

/// Neither the scores of the moves nor the move that is chosen depend on whether a node is
/// sparse or dense.
pub proof fn law_choice_storage<
    E: Fn(Single, Single, i64, i64) -> Single,
    R: Fn(Single, i64) -> Single,
>(tree: Tree, apply_fpu: bool, explore: E, reduce: R)
    ensures
        ({
            let dense = Tree { kids: tree.kids.dense(tree.initial_value), ..tree };
            &&& dense.scores(apply_fpu, explore, reduce) == tree.scores(apply_fpu, explore, reduce)
            &&& dense.choice(apply_fpu, explore, reduce) == tree.choice(apply_fpu, explore, reduce)
        }),
{
    let dense = Tree { kids: tree.kids.dense(tree.initial_value), ..tree };
    assert forall|i: int| 0 <= i < MOVES implies #[trigger] dense.edge(i) == tree.edge(i) by {}
    assert(dense.urgencies(apply_fpu, reduce) =~= tree.urgencies(apply_fpu, reduce));
    assert(dense.scores(apply_fpu, explore, reduce) =~= tree.scores(apply_fpu, explore, reduce));
    lemma_choice(dense, apply_fpu, explore, reduce);
    lemma_choice(tree, apply_fpu, explore, reduce);
    if let Some(i) = argmax_single_spec(tree.scores(apply_fpu, explore, reduce)) {
        lemma_argmax_move(tree, apply_fpu, explore, reduce, i);
    }
}

/// The largest score is that of a move.
proof fn lemma_argmax_move<
    E: Fn(Single, Single, i64, i64) -> Single,
    R: Fn(Single, i64) -> Single,
>(tree: Tree, apply_fpu: bool, explore: E, reduce: R, i: int)
    requires
        argmax_single_spec(tree.scores(apply_fpu, explore, reduce)) == Some(i),
    ensures
        0 <= i < MOVES,
{
    let scores = tree.scores(apply_fpu, explore, reduce);
    assert(is_argmax_single(scores, i));
    assert(scores[i].is_eligible());
}

/// A move that was removed is never returned as the best one, at whatever temperature and by
/// whatever draw, as long as another move was visited.
pub proof fn law_disqualified_outcome<
    G: Fn(Double, i32, i64, Single) -> Double,
    D: FnOnce(Double) -> Double,
>(
    tree: Tree,
    index: int,
    other: int,
    temperature: Single,
    grow: G,
    draw: D,
    r: (Single, usize),
)
    requires
        tree.kids.wf(),
        0 <= index < MOVES,
        0 <= other < MOVES,
        other != index,
        tree.edge(other).count > 0,
        tree.disqualified(index).is_outcome(temperature, grow, draw, r),
    ensures
        r.1 != index,
{
    let next = tree.disqualified(index);
    let edge = Edge { value: Single::neg_infinity_spec(), count: 0, ..tree.edge(index) };
    lemma_put(tree.kids, index, edge, tree.initial_value);
    assert(next.edge(index) == edge);
    assert(next.kids.edge(other, tree.initial_value) == tree.kids.edge(
        other,
        tree.initial_value,
    ));
    assert(next.edge(other).count > 0);
    assert(next.is_visited());
}

} // verus!
