//! What holds of every tree that is built by probes and insertions.

use crate::arithmetic::averaged;
use crate::color::Color;
use crate::insert::lemma_attached;
use crate::laws::{law_probe_step, lemma_updated_step};
use crate::model::{is_padded, lemma_put, lemma_put_wf, Edge, Kids, Tree, MOVES};
use crate::percentile::sum;
use crate::single::Single;
use vstd::prelude::*;

verus! {

impl Tree {
    /// Whether every move with a sub-tree, here and below, is marked as having been expanded.
    pub open spec fn is_settled(self) -> bool
        decreases self,
    {
        forall|i: int|
            (#[trigger] self.edge(i)).child is Some ==> {
                &&& self.edge(i).expanding
                &&& self.edge(i).child->0.is_settled()
            }
    }
}

/// A tree of a single node is settled.
pub proof fn law_leaf_settled(color: Color, value: Single, prior: Seq<Single>)
    ensures
        Tree::leaf(color, value, prior).is_settled(),
{
    let leaf = Tree::leaf(color, value, prior);
    assert forall|i: int| (#[trigger] leaf.edge(i)).child is None by {
        assert(!leaf.kids.has(i));
    }
}

/// A probe keeps a tree settled.
pub proof fn law_probe_settled(tree: Tree, path: Seq<(Color, usize)>, loss: int)
    requires
        tree.wf(),
        tree.is_path(path),
        tree.is_settled(),
    ensures
        tree.with_loss(path, loss).is_settled(),
    decreases path.len(),
{
    if path.len() > 0 {
        let i = path[0].1 as int;
        let rest = path.drop_first();
        let next = tree.with_loss(path, loss);
        assert(tree.edge(i).wf());
        law_probe_step(tree, path, loss, 0);
        lemma_put(
            tree.kids,
            i,
            Edge {
                child: match tree.edge(i).child {
                    Some(child) => Some(child.with_loss(rest, loss)),
                    None => None,
                },
                ..tree.edge(i).taken(loss)
            },
            tree.initial_value,
        );
        if tree.edge(i).child is Some {
            if path.len() == 1 {
                assert(rest =~= Seq::empty());
            }
            law_probe_settled(tree.edge(i).child->0, rest, loss);
        }
        assert forall|j: int| (#[trigger] next.edge(j)).child is Some implies next.edge(j).expanding
            && next.edge(j).child->0.is_settled() by {
            if j != i {
                assert(next.edge(j) == tree.edge(j));
            } else {
                assert(next.edge(i).child->0 == tree.edge(i).child->0.with_loss(rest, loss));
            }
        }
    }
}

/// An insertion at the end of a path whose last edge is marked keeps a tree settled.
pub proof fn law_insert_settled<C: Fn(Single) -> Single, A: Fn(Single, Single, i32) -> Single>(
    tree: Tree,
    path: Seq<(Color, usize)>,
    color: Color,
    value: Single,
    prior: Seq<Single>,
    vloss_cnt: i32,
    complement: C,
    average: A,
)
    requires
        tree.wf(),
        tree.is_open(path),
        path.len() > 0,
        tree.end(path).expanding,
        tree.is_settled(),
    ensures
        tree.inserted(path, color, value, prior, vloss_cnt, complement, average).is_settled(),
{
    let leaf = Tree::leaf(color, value, prior);
    lemma_attached(tree, path, leaf);
    law_leaf_settled(color, value, prior);
    lemma_attached_settled(tree, path, leaf);
    lemma_updated_settled(
        tree.attached(path, leaf),
        path,
        color,
        value,
        vloss_cnt,
        complement,
        average,
    );
}

/// Attaching a leaf below a marked edge keeps a tree settled.
proof fn lemma_attached_settled(tree: Tree, path: Seq<(Color, usize)>, leaf: Tree)
    requires
        tree.wf(),
        tree.is_path(path),
        path.len() > 0,
        tree.end(path).expanding,
        tree.is_settled(),
        leaf.kids == Kids::Sparse(Seq::empty()),
        is_padded(leaf.prior),
    ensures
        tree.attached(path, leaf).is_settled(),
    decreases path.len(),
{
    let i = path[0].1 as int;
    let rest = path.drop_first();
    let edge = tree.edge(i);
    let next = tree.attached(path, leaf);
    assert(edge.wf());
    let child = match edge.child {
        Some(child) => if path.len() == 1 {
            child
        } else {
            child.attached(rest, leaf)
        },
        None => tree.leaf_for(i, leaf),
    };
    let last = Edge { child: Some(child), ..edge };
    lemma_put(tree.kids, i, last, tree.initial_value);
    assert(next.edge(i) == last);
    if path.len() > 1 {
        assert(rest.last() == path.last());
        assert(edge.child->0.end(rest) == tree.end(path));
        lemma_attached_settled(edge.child->0, rest, leaf);
    } else {
        assert(tree.end(path) == edge);
        let below = tree.leaf_for(i, leaf);
        assert forall|j: int| (#[trigger] below.edge(j)).child is None by {
            assert(!below.kids.has(j));
        }
    }
    assert(child.is_settled());
    assert forall|j: int| (#[trigger] next.edge(j)).child is Some implies next.edge(j).expanding
        && next.edge(j).child->0.is_settled() by {
        if j != i {
            assert(next.kids.edge(j, tree.initial_value) == tree.kids.edge(j, tree.initial_value));
            assert(next.edge(j) == tree.edge(j));
        }
    }
}

/// Backing up a value keeps a tree settled.
proof fn lemma_updated_settled<C: Fn(Single) -> Single, A: Fn(Single, Single, i32) -> Single>(
    tree: Tree,
    path: Seq<(Color, usize)>,
    color: Color,
    value: Single,
    vloss_cnt: i32,
    complement: C,
    average: A,
)
    requires
        tree.wf(),
        tree.leads(path),
        tree.counts_fit(path),
        tree.is_settled(),
    ensures
        tree.updated(path, color, value, vloss_cnt, complement, average).is_settled(),
    decreases path.len(),
{
    if path.len() > 0 {
        let i = path[0].1 as int;
        let rest = path.drop_first();
        let edge = tree.edge(i);
        assert(edge.wf());
        let next = tree.updated(path, color, value, vloss_cnt, complement, average);
        let child = edge.child->0.updated(rest, color, value, vloss_cnt, complement, average);
        lemma_updated_settled(edge.child->0, rest, color, value, vloss_cnt, complement, average);
        lemma_updated_step(tree, path, color, value, vloss_cnt, complement, average, 0);
        let count = (edge.count + 1) as i32;
        lemma_put(
            tree.kids,
            i,
            Edge {
                count,
                vcount: (edge.vcount - vloss_cnt) as i16,
                value: averaged(
                    average,
                    edge.value,
                    tree.own_value(color, value, complement),
                    count,
                ),
                child: Some(child),
                ..edge
            },
            tree.initial_value,
        );
        assert(next.edge(i).child == Some(child));
        assert forall|j: int| (#[trigger] next.edge(j)).child is Some implies next.edge(j).expanding
            && next.edge(j).child->0.is_settled() by {
            if j != i {
                assert(next.edge(j) == tree.edge(j));
            }
        }
    }
}

/// Moving forward in a settled tree, or removing a move from it, gives a settled tree.
pub proof fn law_moves_settled(tree: Tree, index: int)
    requires
        tree.wf(),
        tree.is_settled(),
        0 <= index < MOVES,
    ensures
        tree.forwarded(index) matches Some(next) ==> next.is_settled(),
        tree.disqualified(index).is_settled(),
{
    let edge = tree.edge(index);
    assert(edge.wf());
    let last = Edge { value: Single::neg_infinity_spec(), count: 0, ..edge };
    lemma_put_wf(tree, index, last);
    let next = tree.disqualified(index);
    assert forall|j: int| (#[trigger] next.edge(j)).child is Some implies next.edge(j).expanding
        && next.edge(j).child->0.is_settled() by {
        if j != index {
            assert(next.edge(j) == tree.edge(j));
        }
    }
    let passed = tree.after_pass();
    assert forall|j: int| (#[trigger] passed.edge(j)).child is None by {
        assert(!passed.kids.has(j));
    }
}

impl Tree {
    /// Whether every node, here and below, was visited as often as its moves were in all.
    pub open spec fn is_balanced(self) -> bool
        decreases self,
    {
        &&& self.total_count == sum(self.counts())
        &&& forall|i: int|
            (#[trigger] self.edge(i)).child is Some ==> self.edge(i).child->0.is_balanced()
    }
}

/// How a sum changes with one of its counts.
proof fn lemma_sum_update(counts: Seq<i32>, i: int, count: i32)
    requires
        0 <= i < counts.len(),
    ensures
        sum(counts.update(i, count)) == sum(counts) - counts[i] + count,
    decreases counts.len(),
{
    let next = counts.update(i, count);
    if i == counts.len() - 1 {
        assert(next.drop_last() =~= counts.drop_last());
    } else {
        assert(next.drop_last() =~= counts.drop_last().update(i, count));
        lemma_sum_update(counts.drop_last(), i, count);
    }
}

/// A sum of nothing but zeros.
proof fn lemma_sum_zero(counts: Seq<i32>)
    requires
        forall|i: int| 0 <= i < counts.len() ==> #[trigger] counts[i] == 0,
    ensures
        sum(counts) == 0,
    decreases counts.len(),
{
    if counts.len() > 0 {
        let init = counts.drop_last();
        assert forall|i: int| 0 <= i < init.len() implies #[trigger] init[i] == 0 by {
            assert(init[i] == counts[i]);
        }
        lemma_sum_zero(init);
        assert(counts[counts.len() - 1] == 0);
    }
}

/// A node without edges is balanced.
proof fn lemma_empty_balanced(leaf: Tree)
    requires
        leaf.kids == Kids::Sparse(Seq::empty()),
        leaf.total_count == 0,
    ensures
        leaf.is_balanced(),
{
    assert forall|i: int| #[trigger] leaf.edge(i) == Edge::blank(leaf.initial_value) by {
        assert(!leaf.kids.has(i));
    }
    lemma_sum_zero(leaf.counts());
}

/// A node of which one edge was changed is balanced if its counters changed alike.
proof fn lemma_put_balanced(tree: Tree, next: Tree, i: int, edge: Edge)
    requires
        tree.wf(),
        tree.is_balanced(),
        0 <= i < MOVES,
        next.initial_value == tree.initial_value,
        next.kids == tree.put(i, edge).kids,
        next.total_count - tree.total_count == edge.count - tree.edge(i).count,
        edge.child is Some ==> edge.child->0.is_balanced(),
    ensures
        next.is_balanced(),
{
    lemma_put(tree.kids, i, edge, tree.initial_value);
    assert forall|j: int| #[trigger] next.edge(j) == if j == i {
        edge
    } else {
        tree.edge(j)
    } by {
        assert(next.kids.edge(j, tree.initial_value) == if j == i {
            edge
        } else {
            tree.kids.edge(j, tree.initial_value)
        });
    }
    assert(next.counts() =~= tree.counts().update(i, edge.count));
    lemma_sum_update(tree.counts(), i, edge.count);
    assert forall|j: int| (#[trigger] next.edge(j)).child is Some implies next.edge(
        j,
    ).child->0.is_balanced() by {
        if j != i {
            assert(next.edge(j) == tree.edge(j));
        }
    }
}

/// A tree of a single node is balanced.
pub proof fn law_leaf_balanced(color: Color, value: Single, prior: Seq<Single>)
    ensures
        Tree::leaf(color, value, prior).is_balanced(),
{
    lemma_empty_balanced(Tree::leaf(color, value, prior));
}

/// A probe keeps a tree balanced.
pub proof fn law_probe_balanced(tree: Tree, path: Seq<(Color, usize)>, loss: int)
    requires
        tree.wf(),
        tree.is_path(path),
        tree.is_balanced(),
    ensures
        tree.with_loss(path, loss).is_balanced(),
    decreases path.len(),
{
    if path.len() > 0 {
        let i = path[0].1 as int;
        let rest = path.drop_first();
        let edge = tree.edge(i);
        assert(edge.wf());
        let child = match edge.child {
            Some(child) => Some(child.with_loss(rest, loss)),
            None => None,
        };
        if edge.child is Some {
            if path.len() == 1 {
                assert(rest =~= Seq::empty());
            }
            law_probe_balanced(edge.child->0, rest, loss);
        }
        lemma_put_balanced(
            tree,
            tree.with_loss(path, loss),
            i,
            Edge { child, ..edge.taken(loss) },
        );
    }
}

/// Attaching a leaf keeps a tree balanced.
proof fn lemma_attached_balanced(tree: Tree, path: Seq<(Color, usize)>, leaf: Tree)
    requires
        tree.wf(),
        tree.is_path(path),
        tree.is_balanced(),
        leaf.kids == Kids::Sparse(Seq::empty()),
        leaf.total_count == 0,
    ensures
        tree.attached(path, leaf).is_balanced(),
    decreases path.len(),
{
    if path.len() > 0 {
        let i = path[0].1 as int;
        let rest = path.drop_first();
        let edge = tree.edge(i);
        assert(edge.wf());
        let child = match edge.child {
            Some(child) => if path.len() == 1 {
                child
            } else {
                child.attached(rest, leaf)
            },
            None => tree.leaf_for(i, leaf),
        };
        if path.len() > 1 {
            lemma_attached_balanced(edge.child->0, rest, leaf);
        } else {
            lemma_empty_balanced(tree.leaf_for(i, leaf));
        }
        lemma_put_balanced(
            tree,
            tree.attached(path, leaf),
            i,
            Edge { child: Some(child), ..edge },
        );
    }
}

/// Backing up a value keeps a tree balanced.
proof fn lemma_updated_balanced<C: Fn(Single) -> Single, A: Fn(Single, Single, i32) -> Single>(
    tree: Tree,
    path: Seq<(Color, usize)>,
    color: Color,
    value: Single,
    vloss_cnt: i32,
    complement: C,
    average: A,
)
    requires
        tree.wf(),
        tree.leads(path),
        tree.counts_fit(path),
        tree.is_balanced(),
    ensures
        tree.updated(path, color, value, vloss_cnt, complement, average).is_balanced(),
    decreases path.len(),
{
    if path.len() > 0 {
        let i = path[0].1 as int;
        let rest = path.drop_first();
        let edge = tree.edge(i);
        assert(edge.wf());
        let child = edge.child->0.updated(rest, color, value, vloss_cnt, complement, average);
        lemma_updated_balanced(edge.child->0, rest, color, value, vloss_cnt, complement, average);
        let count = (edge.count + 1) as i32;
        lemma_put_balanced(
            tree,
            tree.updated(path, color, value, vloss_cnt, complement, average),
            i,
            Edge {
                count,
                vcount: (edge.vcount - vloss_cnt) as i16,
                value: averaged(
                    average,
                    edge.value,
                    tree.own_value(color, value, complement),
                    count,
                ),
                child: Some(child),
                ..edge
            },
        );
    }
}

/// An insertion keeps a tree balanced.
pub proof fn law_insert_balanced<C: Fn(Single) -> Single, A: Fn(Single, Single, i32) -> Single>(
    tree: Tree,
    path: Seq<(Color, usize)>,
    color: Color,
    value: Single,
    prior: Seq<Single>,
    vloss_cnt: i32,
    complement: C,
    average: A,
)
    requires
        tree.wf(),
        tree.is_open(path),
        tree.is_balanced(),
    ensures
        tree.inserted(path, color, value, prior, vloss_cnt, complement, average).is_balanced(),
{
    let leaf = Tree::leaf(color, value, prior);
    lemma_attached(tree, path, leaf);
    lemma_attached_balanced(tree, path, leaf);
    lemma_updated_balanced(
        tree.attached(path, leaf),
        path,
        color,
        value,
        vloss_cnt,
        complement,
        average,
    );
}

/// Moving forward in a balanced tree gives a balanced tree.
pub proof fn law_forward_balanced(tree: Tree, index: int)
    requires
        tree.is_balanced(),
    ensures
        tree.forwarded(index) matches Some(next) ==> next.is_balanced(),
{
    assert(tree.edge(index).child is Some ==> tree.edge(index).child->0.is_balanced());
    lemma_empty_balanced(tree.after_pass());
}

impl Tree {
    /// The number of virtual losses of each move.
    pub open spec fn vcounts(self) -> Seq<i32> {
        Seq::new(MOVES as nat, |i: int| self.edge(i).vcount as i32)
    }

    /// Whether every node, here and below, has as many virtual losses as its moves have in
    /// all.
    pub open spec fn is_accounted(self) -> bool
        decreases self,
    {
        &&& self.vtotal_count == sum(self.vcounts())
        &&& forall|i: int|
            (#[trigger] self.edge(i)).child is Some ==> self.edge(i).child->0.is_accounted()
    }

    /// Whether the given number of virtual losses can be added on the path.
    pub open spec fn losses_fit(self, path: Seq<(Color, usize)>, loss: int) -> bool
        decreases path.len(),
    {
        path.len() > 0 ==> {
            &&& i32::MIN <= self.vtotal_count + loss <= i32::MAX
            &&& i16::MIN <= self.edge(path[0].1 as int).vcount + loss <= i16::MAX
            &&& self.edge(path[0].1 as int).child matches Some(child) ==> child.losses_fit(
                path.drop_first(),
                loss,
            )
        }
    }
}

/// A node without edges is accounted for.
proof fn lemma_empty_accounted(leaf: Tree)
    requires
        leaf.kids == Kids::Sparse(Seq::empty()),
        leaf.vtotal_count == 0,
    ensures
        leaf.is_accounted(),
{
    assert forall|i: int| #[trigger] leaf.edge(i) == Edge::blank(leaf.initial_value) by {
        assert(!leaf.kids.has(i));
    }
    lemma_sum_zero(leaf.vcounts());
}

/// A node of which one edge was changed is accounted for if its virtual losses changed alike.
proof fn lemma_put_accounted(tree: Tree, next: Tree, i: int, edge: Edge)
    requires
        tree.wf(),
        tree.is_accounted(),
        0 <= i < MOVES,
        next.initial_value == tree.initial_value,
        next.kids == tree.put(i, edge).kids,
        next.vtotal_count - tree.vtotal_count == edge.vcount - tree.edge(i).vcount,
        edge.child is Some ==> edge.child->0.is_accounted(),
    ensures
        next.is_accounted(),
{
    lemma_put(tree.kids, i, edge, tree.initial_value);
    assert forall|j: int| #[trigger] next.edge(j) == if j == i {
        edge
    } else {
        tree.edge(j)
    } by {
        assert(next.kids.edge(j, tree.initial_value) == if j == i {
            edge
        } else {
            tree.kids.edge(j, tree.initial_value)
        });
    }
    assert(next.vcounts() =~= tree.vcounts().update(i, edge.vcount as i32));
    lemma_sum_update(tree.vcounts(), i, edge.vcount as i32);
    assert forall|j: int| (#[trigger] next.edge(j)).child is Some implies next.edge(
        j,
    ).child->0.is_accounted() by {
        if j != i {
            assert(next.edge(j) == tree.edge(j));
        }
    }
}

/// A tree of a single node is accounted for.
pub proof fn law_leaf_accounted(color: Color, value: Single, prior: Seq<Single>)
    ensures
        Tree::leaf(color, value, prior).is_accounted(),
{
    lemma_empty_accounted(Tree::leaf(color, value, prior));
}

/// A probe keeps a tree accounted for, if the virtual losses that it adds can be counted.
pub proof fn law_probe_accounted(tree: Tree, path: Seq<(Color, usize)>, loss: int)
    requires
        tree.wf(),
        tree.is_path(path),
        tree.losses_fit(path, loss),
        tree.is_accounted(),
    ensures
        tree.with_loss(path, loss).is_accounted(),
    decreases path.len(),
{
    if path.len() > 0 {
        let i = path[0].1 as int;
        let rest = path.drop_first();
        let edge = tree.edge(i);
        assert(edge.wf());
        let child = match edge.child {
            Some(child) => Some(child.with_loss(rest, loss)),
            None => None,
        };
        if edge.child is Some {
            if path.len() == 1 {
                assert(rest =~= Seq::empty());
            }
            law_probe_accounted(edge.child->0, rest, loss);
        }
        lemma_put_accounted(
            tree,
            tree.with_loss(path, loss),
            i,
            Edge { child, ..edge.taken(loss) },
        );
    }
}

/// Attaching a leaf keeps a tree accounted for, and what fitted before still fits.
proof fn lemma_attached_accounted(tree: Tree, path: Seq<(Color, usize)>, leaf: Tree, loss: int)
    requires
        tree.wf(),
        tree.is_path(path),
        tree.losses_fit(path, loss),
        tree.is_accounted(),
        leaf.kids == Kids::Sparse(Seq::empty()),
        leaf.vtotal_count == 0,
    ensures
        tree.attached(path, leaf).is_accounted(),
        tree.attached(path, leaf).losses_fit(path, loss),
    decreases path.len(),
{
    if path.len() > 0 {
        let i = path[0].1 as int;
        let rest = path.drop_first();
        let edge = tree.edge(i);
        assert(edge.wf());
        let child = match edge.child {
            Some(child) => if path.len() == 1 {
                child
            } else {
                child.attached(rest, leaf)
            },
            None => tree.leaf_for(i, leaf),
        };
        if path.len() > 1 {
            lemma_attached_accounted(edge.child->0, rest, leaf, loss);
        } else {
            lemma_empty_accounted(tree.leaf_for(i, leaf));
            assert(rest =~= Seq::empty());
        }
        assert(child.losses_fit(rest, loss));
        let last = Edge { child: Some(child), ..edge };
        lemma_put(tree.kids, i, last, tree.initial_value);
        assert(tree.attached(path, leaf).edge(i) == last);
        lemma_put_accounted(tree, tree.attached(path, leaf), i, last);
    }
}

/// Backing up a value keeps a tree accounted for.
proof fn lemma_updated_accounted<C: Fn(Single) -> Single, A: Fn(Single, Single, i32) -> Single>(
    tree: Tree,
    path: Seq<(Color, usize)>,
    color: Color,
    value: Single,
    vloss_cnt: i32,
    complement: C,
    average: A,
)
    requires
        tree.wf(),
        tree.leads(path),
        tree.losses_fit(path, -vloss_cnt),
        tree.is_accounted(),
    ensures
        tree.updated(path, color, value, vloss_cnt, complement, average).is_accounted(),
    decreases path.len(),
{
    if path.len() > 0 {
        let i = path[0].1 as int;
        let rest = path.drop_first();
        let edge = tree.edge(i);
        assert(edge.wf());
        let child = edge.child->0.updated(rest, color, value, vloss_cnt, complement, average);
        lemma_updated_accounted(edge.child->0, rest, color, value, vloss_cnt, complement, average);
        let count = (edge.count + 1) as i32;
        lemma_put_accounted(
            tree,
            tree.updated(path, color, value, vloss_cnt, complement, average),
            i,
            Edge {
                count,
                vcount: (edge.vcount - vloss_cnt) as i16,
                value: averaged(
                    average,
                    edge.value,
                    tree.own_value(color, value, complement),
                    count,
                ),
                child: Some(child),
                ..edge
            },
        );
    }
}

/// An insertion keeps a tree accounted for, if the virtual losses that are left can be
/// counted.
pub proof fn law_insert_accounted<C: Fn(Single) -> Single, A: Fn(Single, Single, i32) -> Single>(
    tree: Tree,
    path: Seq<(Color, usize)>,
    color: Color,
    value: Single,
    prior: Seq<Single>,
    vloss_cnt: i32,
    complement: C,
    average: A,
)
    requires
        tree.wf(),
        tree.is_open(path),
        tree.losses_fit(path, -vloss_cnt),
        tree.is_accounted(),
    ensures
        tree.inserted(path, color, value, prior, vloss_cnt, complement, average).is_accounted(),
{
    let leaf = Tree::leaf(color, value, prior);
    lemma_attached(tree, path, leaf);
    lemma_attached_accounted(tree, path, leaf, -vloss_cnt);
    lemma_updated_accounted(
        tree.attached(path, leaf),
        path,
        color,
        value,
        vloss_cnt,
        complement,
        average,
    );
}

/// Moving forward in a tree that is accounted for, or removing a move from it, gives a tree
/// that is accounted for.
pub proof fn law_moves_accounted(tree: Tree, index: int)
    requires
        tree.wf(),
        tree.is_accounted(),
        0 <= index < MOVES,
    ensures
        tree.forwarded(index) matches Some(next) ==> next.is_accounted(),
        tree.disqualified(index).is_accounted(),
{
    let edge = tree.edge(index);
    assert(edge.child is Some ==> edge.child->0.is_accounted());
    lemma_empty_accounted(tree.after_pass());
    lemma_put_accounted(
        tree,
        tree.disqualified(index),
        index,
        Edge { value: Single::neg_infinity_spec(), count: 0, ..edge },
    );
}

} // verus!
