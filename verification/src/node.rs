use crate::children::{edge_of, tree_of, Child, ChildMut, ChildrenImpl, SmallChildrenImpl};
use crate::color::Color;
use crate::model::{padded, Tree, MOVES, PADDED};
use crate::single::Single;
use vstd::prelude::*;

verus! {

/// A monte carlo search tree.
pub struct Node {
    /// The color of each edge.
    pub color: Color,
    /// The initial value of this node.
    pub initial_value: Single,
    /// The number of consecutive passes to reach this node.
    pub pass_count: i16,
    /// The total number of times any edge has been traversed.
    pub total_count: i32,
    /// The total number of virtual losses for any edge.
    pub vtotal_count: i32,
    /// The prior value of each edge as indicated by the policy.
    pub prior: [Single; 368],
    /// The sparse (or dense) representation of the remaining fields.
    pub children: ChildrenImpl,
}

impl Node {
    /// The tree below this node.
    pub open spec fn view(&self) -> Tree
        decreases *self, 0nat,
    {
        Tree {
            color: self.color,
            initial_value: self.initial_value,
            pass_count: self.pass_count,
            total_count: self.total_count,
            vtotal_count: self.vtotal_count,
            prior: self.prior@,
            kids: self.children.view(),
        }
    }

    /// Every node of the tree is stored as it should be.
    pub open spec fn repr_ok(self) -> bool
        decreases self,
    {
        &&& self.children.wf()
        &&& self.children.vacant(self.initial_value)
        &&& forall|i: int|
            0 <= i < MOVES && (#[trigger] self.children.subtree(i)) is Some
                ==> self.children.subtree(i)->0.repr_ok()
    }

    /// Every node of the tree is stored as it should be, its prior is padded, no count is
    /// negative, and each move that was visited has a sub-tree.
    pub open spec fn wf(self) -> bool {
        &&& self.repr_ok()
        &&& self.view().wf()
    }

    /// The node below a move is the root of the sub-tree of its edge.
    pub proof fn lemma_subtree(self, index: int)
        requires
            self.repr_ok(),
            0 <= index < MOVES,
        ensures
            tree_of(self.children.subtree(index)) == self.view().edge(index).child,
            self.children.subtree(index) matches Some(node) ==> node.repr_ok(),
            self.wf() ==> (self.children.subtree(index) matches Some(node) ==> node.wf()),
    {
        self.children.lemma_child(index, self.initial_value);
        if self.wf() {
            assert(self.view().edge(index).wf());
        }
    }

    /// Returns an empty search tree with the given starting color and prior values.
    ///
    /// # Arguments
    ///
    /// * `color` - the color of the first player
    /// * `value` - the value of this node, and of any move that was never visited
    /// * `prior` - the prior values of the moves
    ///
    pub fn new(color: Color, value: Single, prior: Vec<Single>) -> (r: Node)
        requires
            prior@.len() >= MOVES,
        ensures
            r.wf(),
            r.view() == Tree::leaf(color, value, prior@),
    {
        let mut prior_padding: [Single; 368] = [Single::neg_infinity(); 368];
        let mut i: usize = 0;
        while i < MOVES
            invariant
                i <= MOVES,
                prior@.len() >= MOVES,
                forall|j: int| 0 <= j < i ==> prior_padding[j] == prior@[j],
                forall|j: int|
                    i <= j < PADDED ==> #[trigger] prior_padding[j] == Single::neg_infinity_spec(),
            decreases MOVES - i,
        {
            prior_padding[i] = prior[i];
            i += 1;
        }
        let node = Node {
            color,
            initial_value: value,
            pass_count: 0,
            total_count: 0,
            vtotal_count: 0,
            prior: prior_padding,
            children: ChildrenImpl::Small(SmallChildrenImpl::with_value(value)),
        };
        proof {
            assert(node.prior@ =~= padded(prior@));
            node.children.lemma_view_wf();
            assert forall|i: int| #[trigger] node.children.subtree(i) is None by {
                assert(!node.children.view().has(i));
            }
            assert forall|i: int| (#[trigger] node.view().edge(i)).wf() by {
                assert(!node.children.view().has(i));
            }
        }
        node
    }

    /// Returns the total size of this search tree.
    pub fn size(&self) -> (r: usize)
        ensures
            r == self.total_count as usize,
    {
        self.total_count as usize
    }

    /// The child for the given move.
    pub open spec fn child<'a>(self, index: int) -> Child<'a> {
        self.children.child(index, self.initial_value)
    }

    /// Returns the result of the given callback, which is called with the child for the
    /// given move.
    ///
    /// # Arguments
    ///
    /// * `index` - the move
    /// * `callback` - what to do with the child
    ///
    pub fn with<'a, T, F: FnOnce(Child<'a>) -> T>(&'a self, index: usize, callback: F) -> (r: T)
        requires
            self.children.wf(),
            self.children is Big ==> index < MOVES,
            call_requires(callback, (self.child(index as int),)),
        ensures
            call_ensures(callback, (self.child(index as int),), r),
            self.child(index as int).edge() == self.view().edge(index as int),
    {
        self.children.with(index, callback, self.initial_value)
    }

    /// Returns the number of visits of the given move.
    pub fn count_of(&self, index: usize) -> (r: i32)
        requires
            self.children.wf(),
            index < MOVES,
        ensures
            r == self.view().edge(index as int).count,
    {
        let count = |child: Child| -> (n: i32)
            ensures
                n == child.edge().count,
            {
                child.count()
            };
        self.with(index, count)
    }

    /// Returns the average value of the given move.
    pub fn value_of(&self, index: usize) -> (r: Single)
        requires
            self.children.wf(),
            index < MOVES,
        ensures
            r == self.view().edge(index as int).value,
    {
        let value = |child: Child| -> (v: Single)
            ensures
                v == child.edge().value,
            {
                child.value()
            };
        self.with(index, value)
    }

    /// Returns the node below the given move, if there is one.
    pub fn node_of<'a>(&'a self, index: usize) -> (r: Option<&'a Node>)
        requires
            self.repr_ok(),
            index < MOVES,
        ensures
            match r {
                Some(node) => {
                    &&& node.repr_ok()
                    &&& self.wf() ==> node.wf()
                    &&& self.view().edge(index as int).child == Some(node.view())
                },
                None => self.view().edge(index as int).child is None,
            },
    {
        let node = |child: Child<'a>| -> (p: Option<&'a Node>)
            ensures
                p == child.ptr,
            {
                child.ptr()
            };
        proof {
            self.lemma_subtree(index as int);
            self.children.lemma_child(index as int, self.initial_value);
        }
        self.with(index, node)
    }

    /// Returns the child for the given move, open to change.
    pub fn child_mut<'a>(&'a mut self, index: usize) -> (c: ChildMut<'a>)
        requires
            old(self).repr_ok(),
            index < MOVES,
        ensures
            c.now().edge() == old(self).view().edge(index as int),
            c.now().ptr == old(self).children.subtree(index as int),
            final(self).view() == old(self).view().put(
                index as int,
                edge_of(
                    *final(c.count),
                    *final(c.vcount),
                    *final(c.value),
                    *final(c.expanding),
                    *final(c.ptr),
                ),
            ),
            (*final(c.ptr) matches Some(node) ==> node.repr_ok()) ==> final(self).repr_ok(),
            final(self).children.subtree(index as int) == *final(c.ptr),
            forall|i: int|
                0 <= i < MOVES && i != index ==> #[trigger] final(self).children.subtree(i) == old(
                    self,
                ).children.subtree(i),
    {
        let ghost was = *self;
        proof {
            was.children.lemma_held(index as int, was.initial_value);
            was.children.lemma_view_wf();
        }
        self.children.child_mut(index, self.initial_value)
    }
}

} // verus!
