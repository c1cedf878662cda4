use crate::children::{edge_of, ChildMut};
use crate::color::Color;
use crate::laws_storage::law_forward;
use crate::model::{
    is_padded, lemma_put_wf, lemma_same_kids_wf, Edge, Tree, MOVES, PADDED, PASS,
};
use crate::node::Node;
use crate::single::{argmax_single, argmax_single_spec, Single};
use vstd::prelude::*;

verus! {

impl Tree {
    /// The tree that is reached by a pass that was never explored.
    pub open spec fn after_pass(self) -> Tree {
        Tree {
            pass_count: (self.pass_count + 1) as i16,
            ..Tree::leaf(
                self.color.opposite_spec(),
                Single::half_spec(),
                Seq::new(MOVES as nat, |i: int| Single::zero_spec()),
            )
        }
    }

    /// The sub-tree that contains the exploration of the given move, where there is one.
    pub open spec fn forwarded(self, index: int) -> Option<Tree> {
        match self.edge(index).child {
            Some(child) => Some(child),
            None => if index == PASS {
                Some(self.after_pass())
            } else {
                None
            },
        }
    }

    /// This tree without the given move as a valid choice.
    pub open spec fn disqualified(self, index: int) -> Tree {
        self.put(
            index,
            Edge { value: Single::neg_infinity_spec(), count: 0, ..self.edge(index) },
        )
    }
}

impl Node {
    /// Returns the result of the given callback, which is called with the child for the
    /// given move and may change it.
    ///
    /// # Arguments
    ///
    /// * `index` - the move
    /// * `callback` - what to do with the child
    ///
    pub fn with_mut<T, F: FnOnce(ChildMut) -> T>(&mut self, index: usize, callback: F) -> (r: T)
        requires
            old(self).repr_ok(),
            index < MOVES,
            forall|c: ChildMut|
                c.now().edge() == old(self).view().edge(index as int) && c.now().ptr == old(
                    self,
                ).children.subtree(index as int) ==> #[trigger] call_requires(callback, (c,)),
        ensures
            exists|c: ChildMut|
                {
                    let edge = edge_of(
                        *final(c.count),
                        *final(c.vcount),
                        *final(c.value),
                        *final(c.expanding),
                        *final(c.ptr),
                    );
                    &&& #[trigger] call_ensures(callback, (c,), r)
                    &&& c.now().edge() == old(self).view().edge(index as int)
                    &&& c.now().ptr == old(self).children.subtree(index as int)
                    &&& final(self).view() == old(self).view().put(index as int, edge)
                    &&& (*final(c.ptr) matches Some(node) ==> node.repr_ok())
                        ==> final(self).repr_ok()
                    &&& old(self).wf() && edge.wf() && (*final(c.ptr) matches Some(node)
                        ==> node.wf()) ==> final(self).wf()
                },
    {
        let ghost tree = self.view();
        proof {
            assert forall|edge: Edge| tree.wf() && edge.wf() implies #[trigger] tree.put(
                index as int,
                edge,
            ).wf() by {
                lemma_put_wf(tree, index as int, edge);
            }
        }
        callback(self.child_mut(index))
    }

    /// Returns the sub-tree that contains the exploration of the given move.
    ///
    /// # Arguments
    ///
    /// * `self` - the search tree to pluck the child from
    /// * `index` - the move to pluck the sub-tree for
    ///
    pub fn forward(self, index: usize) -> (r: Option<Node>)
        requires
            self.repr_ok(),
            index < MOVES,
            index == PASS && self.view().edge(index as int).child is None ==> self.pass_count
                < i16::MAX,
        ensures
            match self.view().forwarded(index as int) {
                Some(tree) => {
                    &&& r is Some
                    &&& r->0.view() == tree
                    &&& r->0.repr_ok()
                    &&& self.wf() ==> r->0.wf()
                },
                None => r is None,
            },
            self.view().edge(index as int).child matches Some(child) ==> r is Some && r->0.view()
                == child,
            self.view().edge(index as int).child is None && index != PASS ==> r is None,
    {
        proof {
            law_forward(self.view(), index as int);
        }
        let color: Color = self.color;
        let pass_count: i16 = self.pass_count;
        let mut root: Node = self;
        proof {
            root.lemma_subtree(index as int);
        }
        let child = root.child_mut(index);
        match child.ptr.take() {
            Some(next) => Some(*next),
            None => {
                if index == PASS {
                    // the pass needs to be recorded, so that the root node has the correct
                    // pass count
                    let mut prior: Vec<Single> = Vec::new();
                    let mut i: usize = 0;
                    while i < MOVES
                        invariant
                            i <= MOVES,
                            prior@.len() == i,
                            forall|j: int| 0 <= j < i ==> prior@[j] == Single::zero_spec(),
                        decreases MOVES - i,
                    {
                        prior.push(Single::zero());
                        i += 1;
                    }
                    assert(prior@ =~= Seq::new(MOVES as nat, |i: int| Single::zero_spec()));
                    let mut next: Node = Node::new(color.opposite(), Single::half(), prior);
                    let ghost fresh = next;
                    next.pass_count = pass_count + 1;
                    proof {
                        lemma_same_kids_wf(fresh.view(), next.view());
                    }
                    Some(next)
                } else {
                    None
                }
            },
        }
    }

    /// Returns the best move according to the prior value of the root node, and this value.
    /// That is the pass if no move has a prior value.
    pub fn prior(&self) -> (r: (Single, usize))
        ensures
            r.1 == match argmax_single_spec(self.prior@) {
                Some(i) => i,
                None => PASS as int,
            },
            r.1 < PADDED,
            is_padded(self.prior@) ==> r.1 < MOVES,
            r.0 == self.prior@[r.1 as int],
    {
        let mut prior: Vec<Single> = Vec::new();
        let mut i: usize = 0;
        while i < PADDED
            invariant
                i <= PADDED,
                prior@.len() == i,
                forall|j: int| 0 <= j < i ==> prior@[j] == self.prior[j],
            decreases PADDED - i,
        {
            prior.push(self.prior[i]);
            i += 1;
        }
        assert(prior@ =~= self.prior@);
        assert(is_padded(self.prior@) ==> forall|i: int|
            MOVES <= i < PADDED ==> !(#[trigger] self.prior@[i]).is_eligible());
        let max_i: usize = match argmax_single(&prior) {
            Some(i) => i,
            None => PASS,
        };
        (self.prior[max_i], max_i)
    }

    /// Remove the given move as a valid choice in this search tree by setting its `value` to
    /// negative infinity.
    ///
    /// # Arguments
    ///
    /// * `index` - the index of the child to disqualify
    ///
    pub fn disqualify(&mut self, index: usize)
        requires
            old(self).repr_ok(),
            index < MOVES,
        ensures
            final(self).repr_ok(),
            old(self).wf() ==> final(self).wf(),
            final(self).view() == old(self).view().disqualified(index as int),
    {
        let ghost tree = self.view();
        proof {
            let edge = tree.edge(index as int);
            self.lemma_subtree(index as int);
            if tree.wf() {
                assert(edge.wf());
                lemma_put_wf(
                    tree,
                    index as int,
                    Edge { value: Single::neg_infinity_spec(), count: 0, ..edge },
                );
            }
        }
        let mut child = self.child_mut(index);
        child.set_value(Single::neg_infinity());
        child.set_count(0);
    }
}

} // verus!
