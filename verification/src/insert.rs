use crate::arithmetic::{averaged, complemented, is_average, is_complement};
use crate::color::Color;
use crate::model::{
    is_padded, lemma_put, lemma_put_wf, lemma_same_kids_wf, Edge, Kids, Tree, MOVES, PASS,
};
use crate::node::Node;
use crate::score::PUCT;
use crate::search::NodeTrace;
use crate::select::{lemma_wrap, lemma_wrap_short};
use crate::single::Single;
use vstd::prelude::*;

verus! {

impl Tree {
    /// Whether the path leads down this tree: each of its edges is one of a move, and each
    /// but the last has a sub-tree.
    pub open spec fn is_path(self, path: Seq<(Color, usize)>) -> bool
        decreases path.len(),
    {
        path.len() > 0 ==> {
            &&& path[0].1 < MOVES
            &&& path.len() > 1 ==> {
                &&& self.edge(path[0].1 as int).child is Some
                &&& self.edge(path[0].1 as int).child->0.is_path(path.drop_first())
            }
        }
    }

    /// Whether the path leads down this tree to a node: each of its edges has a sub-tree.
    pub open spec fn leads(self, path: Seq<(Color, usize)>) -> bool
        decreases path.len(),
    {
        path.len() > 0 ==> {
            &&& path[0].1 < MOVES
            &&& self.edge(path[0].1 as int).child is Some
            &&& self.edge(path[0].1 as int).child->0.leads(path.drop_first())
        }
    }

    /// Whether one more visit can be counted on the path.
    pub open spec fn counts_fit(self, path: Seq<(Color, usize)>) -> bool
        decreases path.len(),
    {
        path.len() > 0 ==> {
            &&& self.total_count < i32::MAX
            &&& 0 <= self.edge(path[0].1 as int).count < i32::MAX
            &&& self.edge(path[0].1 as int).child matches Some(child) ==> child.counts_fit(
                path.drop_first(),
            )
        }
    }

    /// Whether one more pass can be counted at the end of the path.
    pub open spec fn passes_fit(self, path: Seq<(Color, usize)>) -> bool
        decreases path.len(),
    {
        if path.len() == 0 {
            true
        } else if path.len() == 1 {
            path[0].1 == PASS ==> self.pass_count < i16::MAX
        } else {
            self.edge(path[0].1 as int).child matches Some(child) ==> child.passes_fit(
                path.drop_first(),
            )
        }
    }

    /// Whether a node can be inserted at the end of the path: the path leads down this tree,
    /// and one more visit, and one more pass, can be counted.
    pub open spec fn is_open(self, path: Seq<(Color, usize)>) -> bool {
        &&& self.is_path(path)
        &&& self.counts_fit(path)
        &&& self.passes_fit(path)
    }

    /// The tree that is inserted below the given move of this node, if it has none yet.
    pub open spec fn leaf_for(self, i: int, leaf: Tree) -> Tree {
        if i == PASS {
            Tree { pass_count: (self.pass_count + 1) as i16, ..leaf }
        } else {
            leaf
        }
    }

    /// This tree with a leaf at the end of the path, unless there is a sub-tree already.
    pub open spec fn attached(self, path: Seq<(Color, usize)>, leaf: Tree) -> Tree
        decreases path.len(),
    {
        if path.len() == 0 {
            self
        } else {
            let i = path[0].1 as int;
            let child = match self.edge(i).child {
                Some(child) => if path.len() == 1 {
                    child
                } else {
                    child.attached(path.drop_first(), leaf)
                },
                None => self.leaf_for(i, leaf),
            };
            self.put(i, Edge { child: Some(child), ..self.edge(i) })
        }
    }

    /// The given value from the point of view of the player of this node.
    pub open spec fn own_value<C: Fn(Single) -> Single>(
        self,
        color: Color,
        value: Single,
        complement: C,
    ) -> Single {
        if color == self.color {
            value
        } else {
            complemented(complement, value)
        }
    }

    /// This tree with the value averaged into each edge of the path, with one more visit and
    /// one virtual loss less.
    pub open spec fn updated<
        C: Fn(Single) -> Single,
        A: Fn(Single, Single, i32) -> Single,
    >(
        self,
        path: Seq<(Color, usize)>,
        color: Color,
        value: Single,
        vloss_cnt: i32,
        complement: C,
        average: A,
    ) -> Tree
        decreases path.len(),
    {
        if path.len() == 0 {
            self
        } else {
            let i = path[0].1 as int;
            let edge = self.edge(i);
            let count = (edge.count + 1) as i32;
            let child = match edge.child {
                Some(child) => Some(
                    child.updated(
                        path.drop_first(),
                        color,
                        value,
                        vloss_cnt,
                        complement,
                        average,
                    ),
                ),
                None => None,
            };
            Tree {
                total_count: (self.total_count + 1) as i32,
                vtotal_count: (self.vtotal_count - vloss_cnt) as i32,
                ..self.put(
                    i,
                    Edge {
                        count,
                        vcount: (edge.vcount - vloss_cnt) as i16,
                        value: averaged(
                            average,
                            edge.value,
                            self.own_value(color, value, complement),
                            count,
                        ),
                        child,
                        ..edge
                    },
                )
            }
        }
    }

    /// This tree with a leaf of the given color, value and prior at the end of the path, and
    /// with the value backed up along the path.
    pub open spec fn inserted<
        C: Fn(Single) -> Single,
        A: Fn(Single, Single, i32) -> Single,
    >(
        self,
        path: Seq<(Color, usize)>,
        color: Color,
        value: Single,
        prior: Seq<Single>,
        vloss_cnt: i32,
        complement: C,
        average: A,
    ) -> Tree {
        self.attached(path, Tree::leaf(color, value, prior)).updated(
            path,
            color,
            value,
            vloss_cnt,
            complement,
            average,
        )
    }
}

/// A tree of a single node is well formed.
pub proof fn lemma_leaf_wf(leaf: Tree)
    requires
        leaf.kids == Kids::Sparse(Seq::empty()),
        is_padded(leaf.prior),
    ensures
        leaf.wf(),
{
    assert forall|i: int| (#[trigger] leaf.edge(i)).wf() by {
        assert(!leaf.kids.has(i));
    }
}

/// A path that leads to a node leads down the tree.
pub proof fn lemma_leads(tree: Tree, path: Seq<(Color, usize)>)
    requires
        tree.leads(path),
    ensures
        tree.is_path(path),
    decreases path.len(),
{
    if path.len() > 1 {
        lemma_leads(tree.edge(path[0].1 as int).child->0, path.drop_first());
    }
}

/// Once a leaf is attached, the path leads to a node, and what fitted before still fits.
pub proof fn lemma_attached(tree: Tree, path: Seq<(Color, usize)>, leaf: Tree)
    requires
        tree.wf(),
        tree.is_path(path),
        leaf.kids == Kids::Sparse(Seq::empty()),
        is_padded(leaf.prior),
    ensures
        tree.attached(path, leaf).wf(),
        tree.attached(path, leaf).leads(path),
        tree.counts_fit(path) ==> tree.attached(path, leaf).counts_fit(path),
    decreases path.len(),
{
    if path.len() > 0 {
        let i = path[0].1 as int;
        let edge = tree.edge(i);
        let rest = path.drop_first();
        assert(edge.wf());
        let child = match edge.child {
            Some(child) => if path.len() == 1 {
                assert(rest =~= Seq::empty());
                child
            } else {
                lemma_attached(child, rest, leaf);
                child.attached(rest, leaf)
            },
            None => {
                assert(rest =~= Seq::empty());
                lemma_leaf_wf(tree.leaf_for(i, leaf));
                tree.leaf_for(i, leaf)
            },
        };
        assert(child.leads(rest));
        if tree.counts_fit(path) {
            assert(child.counts_fit(rest));
        }
        lemma_put_wf(tree, i, Edge { child: Some(child), ..edge });
    }
}

/// Backing up a value keeps a tree well formed.
pub proof fn lemma_updated_wf<C: Fn(Single) -> Single, A: Fn(Single, Single, i32) -> Single>(
    tree: Tree,
    path: Seq<(Color, usize)>,
    color: Color,
    value: Single,
    vloss_cnt: i32,
    complement: C,
    average: A,
)
    requires
        tree.wf(),
        tree.leads(path),
        tree.counts_fit(path),
    ensures
        tree.updated(path, color, value, vloss_cnt, complement, average).wf(),
    decreases path.len(),
{
    if path.len() > 0 {
        let i = path[0].1 as int;
        let edge = tree.edge(i);
        let rest = path.drop_first();
        assert(edge.wf());
        let below = edge.child->0;
        lemma_updated_wf(below, rest, color, value, vloss_cnt, complement, average);
        let count = (edge.count + 1) as i32;
        let last = Edge {
            count,
            vcount: (edge.vcount - vloss_cnt) as i16,
            value: averaged(
                average,
                edge.value,
                tree.own_value(color, value, complement),
                count,
            ),
            child: Some(below.updated(rest, color, value, vloss_cnt, complement, average)),
            ..edge
        };
        lemma_put_wf(tree, i, last);
        lemma_same_kids_wf(
            tree.put(i, last),
            tree.updated(path, color, value, vloss_cnt, complement, average),
        );
    }
}

/// Inserts a leaf at the end of the trace from step `k` on, unless there is a node already.
fn attach(node: &mut Node, trace: &NodeTrace, k: usize, leaf: Node)
    requires
        old(node).repr_ok(),
        k < trace@.len(),
        old(node).view().is_path(trace@.skip(k as int)),
        old(node).view().passes_fit(trace@.skip(k as int)),
        leaf.wf(),
        leaf.view().kids == Kids::Sparse(Seq::empty()),
    ensures
        final(node).repr_ok(),
        old(node).wf() ==> final(node).wf(),
        final(node).view().leads(trace@.skip(k as int)),
        old(node).view().counts_fit(trace@.skip(k as int)) ==> final(node).view().counts_fit(
            trace@.skip(k as int),
        ),
        final(node).view() == old(node).view().attached(trace@.skip(k as int), leaf.view()),
    decreases trace@.len() - k,
{
    let ghost tree = node.view();
    let ghost path = trace@.skip(k as int);
    let ghost rest = trace@.skip(k + 1);
    let index: usize = trace[k].1;
    let last: bool = k == trace.len() - 1;
    let pass_count: i16 = node.pass_count;
    proof {
        assert(path.drop_first() =~= rest);
        assert(path[0] == trace@[k as int]);
        node.children.lemma_view_wf();
        if tree.wf() {
            lemma_attached(tree, path, leaf.view());
            assert(tree.edge(index as int).wf());
        }
        if last {
            assert(rest =~= Seq::empty());
        }
        node.lemma_subtree(index as int);
        assert forall|edge: Edge| #[trigger] tree.put(index as int, edge).edge(index as int)
            == edge by {
            lemma_put(tree.kids, index as int, edge, tree.initial_value);
        }
    }
    let child = node.child_mut(index);
    if let Some(next) = &mut *child.ptr {
        if !last {
            attach(&mut **next, trace, k + 1, leaf);
        }
    } else {
        let mut leaf: Node = leaf;
        if index == PASS {
            leaf.pass_count = pass_count + 1;
        }
        proof {
            lemma_leaf_wf(leaf.view());
        }
        *child.ptr = Some(Box::new(leaf));
    }
    proof {
        let below = node.view().edge(index as int).child;
        assert(below is Some);
        assert(below->0.leads(rest));
        if tree.counts_fit(path) {
            assert(below->0.counts_fit(rest));
        }
    }
}

impl PUCT {
    /// Updates the trace backwards with the given value (and color), from step `k` on.
    ///
    /// # Arguments
    ///
    /// * `node` - the node at step `k` of the trace
    /// * `trace` - the edges to update
    /// * `k` - the first step to update
    /// * `color` - the player from whose point of view the value is
    /// * `value` - the value to average into each edge
    /// * `vloss_cnt` - the virtual loss to take from each edge
    /// * `complement` - returns the value from the point of view of the other player
    /// * `average` - returns the average, given the previous one, the value to average into
    ///   it, and the number of values with that one
    ///
    pub fn update<C: Fn(Single) -> Single, A: Fn(Single, Single, i32) -> Single>(
        node: &mut Node,
        trace: &NodeTrace,
        k: usize,
        color: Color,
        value: Single,
        vloss_cnt: i32,
        complement: &C,
        average: &A,
    )
        requires
            old(node).repr_ok(),
            k <= trace@.len(),
            old(node).view().is_path(trace@.skip(k as int)),
            old(node).view().counts_fit(trace@.skip(k as int)),
            is_complement(*complement),
            is_average(*average),
        ensures
            final(node).repr_ok(),
            old(node).wf() && old(node).view().leads(trace@.skip(k as int)) ==> final(node).wf(),
            final(node).view() == old(node).view().updated(
                trace@.skip(k as int),
                color,
                value,
                vloss_cnt,
                *complement,
                *average,
            ),
        decreases trace@.len() - k,
    {
        if k == trace.len() {
            return;
        }
        let ghost tree = node.view();
        let ghost path = trace@.skip(k as int);
        let index: usize = trace[k].1;
        let ghost edge = tree.edge(index as int);
        proof {
            assert(path.drop_first() =~= trace@.skip(k + 1));
            assert(path[0] == trace@[k as int]);
            if k == trace@.len() - 1 {
                assert(path.drop_first() =~= Seq::empty());
            }
            lemma_wrap(tree.vtotal_count, vloss_cnt);
            lemma_wrap_short(edge.vcount, vloss_cnt);
            node.lemma_subtree(index as int);
        }
        let own: Single = if color == node.color {
            value
        } else {
            complement(value)
        };
        node.total_count = node.total_count + 1;
        node.vtotal_count = node.vtotal_count.wrapping_sub(vloss_cnt);
        proof {
            assert(node.view().edge(index as int) == edge);
            node.lemma_subtree(index as int);
        }
        let ghost counted = node.view();
        let mut child = node.child_mut(index);
        let prev_count: i32 = child.count();
        let prev_vcount: i32 = child.vcount();
        let prev_value: Single = child.value();
        child.set_count(prev_count + 1);
        child.set_value(average(prev_value, own, prev_count + 1));
        child.set_vcount(prev_vcount.wrapping_sub(vloss_cnt));
        if let Some(next) = &mut *child.ptr {
            PUCT::update(
                &mut **next,
                trace,
                k + 1,
                color,
                value,
                vloss_cnt,
                complement,
                average,
            );
        }
        proof {
            if tree.wf() && tree.leads(path) {
                lemma_updated_wf(tree, path, color, value, vloss_cnt, *complement, *average);
            }
        }
    }
}

/// Returns whether a node can be inserted at the end of the given trace, from step `k` on.
fn can_insert_from(node: &Node, trace: &NodeTrace, k: usize) -> (r: bool)
    requires
        node.repr_ok(),
        k <= trace@.len(),
    ensures
        r == node.view().is_open(trace@.skip(k as int)),
    decreases trace@.len() - k,
{
    let ghost tree = node.view();
    let ghost path = trace@.skip(k as int);
    if k == trace.len() {
        return true;
    }
    let index: usize = trace[k].1;
    let last: bool = k == trace.len() - 1;
    proof {
        assert(path.drop_first() =~= trace@.skip(k + 1));
        assert(path[0] == trace@[k as int]);
        if last && tree.edge(index as int).child is Some {
            assert(path.drop_first() =~= Seq::empty());
            assert(tree.edge(index as int).child->0.counts_fit(path.drop_first()));
        }
    }
    if index >= MOVES || node.total_count == i32::MAX {
        return false;
    }
    let count: i32 = node.count_of(index);
    if count < 0 || count == i32::MAX {
        return false;
    }
    if last {
        index != PASS || node.pass_count < i16::MAX
    } else {
        match node.node_of(index) {
            Some(next) => can_insert_from(next, trace, k + 1),
            None => false,
        }
    }
}

/// Returns whether a node can be inserted at the end of the given trace: it leads down the
/// tree, and one more visit, and one more pass, can be counted.
///
/// # Arguments
///
/// * `root` - the search tree
/// * `trace` - the edges that lead to the new node
///
pub fn can_insert(root: &Node, trace: &NodeTrace) -> (r: bool)
    requires
        root.repr_ok(),
    ensures
        r == root.view().is_open(trace@),
{
    assert(trace@.skip(0) =~= trace@);
    can_insert_from(root, trace, 0)
}

/// Insert a new node at the end of the given trace and perform the backup pass, updating the
/// average values of all nodes in the trace. A node that is already at the end of the trace
/// stays.
///
/// # Arguments
///
/// * `root` - the search tree
/// * `trace` - the edges that lead to the new node
/// * `color` - the color of the new node
/// * `value` - the value of the new node
/// * `prior` - the prior values of the new node
/// * `vloss_cnt` - the virtual loss to take from each edge
/// * `complement` - returns the value from the point of view of the other player
/// * `average` - returns the average, given the previous one, the value to average into it,
///   and the number of values with that one
///
pub fn insert<C: Fn(Single) -> Single, A: Fn(Single, Single, i32) -> Single>(
    root: &mut Node,
    trace: &NodeTrace,
    color: Color,
    value: Single,
    prior: Vec<Single>,
    vloss_cnt: i32,
    complement: &C,
    average: &A,
)
    requires
        old(root).repr_ok(),
        trace@.len() > 0 ==> prior@.len() >= MOVES,
        old(root).view().is_open(trace@),
        is_complement(*complement),
        is_average(*average),
    ensures
        final(root).repr_ok(),
        old(root).wf() ==> final(root).wf(),
        final(root).view() == old(root).view().inserted(
            trace@,
            color,
            value,
            prior@,
            vloss_cnt,
            *complement,
            *average,
        ),
{
    assert(trace@.skip(0) =~= trace@);
    if trace.len() > 0 {
        attach(root, trace, 0, Node::new(color, value, prior));
        proof {
            lemma_leads(root.view(), trace@);
        }
    }
    PUCT::update(root, trace, 0, color, value, vloss_cnt, complement, average);
}

} // verus!
