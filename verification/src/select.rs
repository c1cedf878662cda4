use crate::arithmetic::{is_explore, is_reduce, reduced};
use crate::children::{Child, ChildrenImpl};
use crate::model::{lemma_put_wf, lemma_same_kids_wf, Edge, Kids, Tree, MOVES, PADDED};
use crate::node::Node;
use crate::score::{FPU, PUCT};
use crate::single::{argmax_single, argmax_single_spec, is_argmax_single, Single};
use vstd::prelude::*;

verus! {

/// Wrapping arithmetic keeps the low bits of the result.
pub proof fn lemma_wrap(x: i32, v: i32)
    ensures
        x.wrapping_add(v) == (x + v) as i32,
        x.wrapping_sub(v) == (x - v) as i32,
{
    if x + v > i32::MAX {
        assert((x + v) as i32 == x + v - 0x1_0000_0000) by (bit_vector)
            requires
                x + v > 0x7fff_ffff,
        ;
    }
    if x + v < i32::MIN {
        assert((x + v) as i32 == x + v + 0x1_0000_0000) by (bit_vector)
            requires
                x + v < -0x8000_0000,
        ;
    }
    if x - v > i32::MAX {
        assert((x - v) as i32 == x - v - 0x1_0000_0000) by (bit_vector)
            requires
                x - v > 0x7fff_ffff,
        ;
    }
    if x - v < i32::MIN {
        assert((x - v) as i32 == x - v + 0x1_0000_0000) by (bit_vector)
            requires
                x - v < -0x8000_0000,
        ;
    }
}

/// The low sixteen bits of a sum do not depend on whether it has wrapped before.
pub proof fn lemma_wrap_short(x: i16, v: i32)
    ensures
        (x as i32).wrapping_add(v) as i16 == (x + v) as i16,
        (x as i32).wrapping_sub(v) as i16 == (x - v) as i16,
{
    lemma_wrap(x as i32, v);
    assert(((x as i32) + v) as i32 as i16 == (x + v) as i16) by (bit_vector);
    assert(((x as i32) - v) as i32 as i16 == (x - v) as i16) by (bit_vector);
}

impl Edge {
    /// This edge with its virtual visits changed by `loss`, of which sixteen bits are kept,
    /// and marked as being expanded.
    pub open spec fn taken(self, loss: int) -> Edge {
        Edge { vcount: (self.vcount + loss) as i16, expanding: true, ..self }
    }
}

impl Tree {
    /// Whether the first play urgency is applied to the given move: it was never visited.
    pub open spec fn is_urgent(self, i: int) -> bool {
        self.edge(i).count == 0
    }

    /// The value of each move before its exploration bonus, that of the node where the move
    /// was never visited and was not removed, and negative infinity after the moves.
    pub open spec fn urgencies<R: Fn(Single, i64) -> Single>(
        self,
        apply_fpu: bool,
        reduce: R,
    ) -> Seq<Single> {
        Seq::new(
            PADDED as nat,
            |i: int| if i < MOVES {
                if apply_fpu && self.is_urgent(i) {
                    reduced(reduce, self.edge(i).shown(self.initial_value), self.visits())
                } else {
                    self.edge(i).shown(self.initial_value)
                }
            } else {
                Single::neg_infinity_spec()
            },
        )
    }

    /// The score of each move, and negative infinity after that.
    pub open spec fn scores<
        E: Fn(Single, Single, i64, i64) -> Single,
        R: Fn(Single, i64) -> Single,
    >(self, apply_fpu: bool, explore: E, reduce: R) -> Seq<Single> {
        self.with_bonus(self.urgencies(apply_fpu, reduce), explore)
    }

    /// The first move with the largest score, unless there is none, or it is being expanded
    /// already.
    pub open spec fn choice<
        E: Fn(Single, Single, i64, i64) -> Single,
        R: Fn(Single, i64) -> Single,
    >(self, apply_fpu: bool, explore: E, reduce: R) -> Option<int> {
        match argmax_single_spec(self.scores(apply_fpu, explore, reduce)) {
            Some(i) => if self.edge(i).is_pending() {
                None
            } else {
                Some(i)
            },
            None => None,
        }
    }

    /// This tree with a virtual loss on the given move, which is marked as being expanded.
    pub open spec fn chosen(self, i: int, vloss_cnt: i32) -> Tree {
        Tree {
            vtotal_count: (self.vtotal_count + vloss_cnt) as i32,
            ..self.put(i, self.edge(i).taken(vloss_cnt as int))
        }
    }
}

/// A move that is chosen is one of the moves of the game, and is not being expanded.
pub proof fn lemma_choice<
    E: Fn(Single, Single, i64, i64) -> Single,
    R: Fn(Single, i64) -> Single,
>(tree: Tree, apply_fpu: bool, explore: E, reduce: R)
    ensures
        tree.choice(apply_fpu, explore, reduce) matches Some(i) ==> 0 <= i < MOVES
            && !tree.edge(i).is_pending() && is_argmax_single(
            tree.scores(apply_fpu, explore, reduce),
            i,
        ),
{
    let scores = tree.scores(apply_fpu, explore, reduce);
    if let Some(i) = argmax_single_spec(scores) {
        assert(is_argmax_single(scores, i));
        assert(scores[i].is_eligible());
    }
}

impl Node {
    /// Returns the score of each move.
    fn score<E: Fn(Single, Single, i64, i64) -> Single, R: Fn(Single, i64) -> Single>(
        &self,
        apply_fpu: bool,
        explore: &E,
        reduce: &R,
    ) -> (r: Vec<Single>)
        requires
            self.children.wf(),
            is_explore(*explore),
            is_reduce(*reduce),
        ensures
            r@ == self.view().scores(apply_fpu, *explore, *reduce),
    {
        let ghost tree = self.view();
        let mut value: Vec<Single> = self.children.value(self.initial_value);
        let ghost plain = value@;
        if apply_fpu {
            let n: i64 = self.total_count as i64 + self.vtotal_count as i64;
            match &self.children {
                ChildrenImpl::Big(big) => {
                    FPU::apply_big(&mut value, &**big, n, reduce);
                    assert forall|i: int| 0 <= i < MOVES implies #[trigger] value@[i]
                        == tree.urgencies(apply_fpu, *reduce)[i] by {
                        assert(tree.kids->Dense_0[i] == big.edge_at(i));
                    }
                },
                ChildrenImpl::Small(small) => {
                    FPU::apply_small(&mut value, small, n, reduce);
                    assert forall|i: int| 0 <= i < MOVES implies #[trigger] value@[i]
                        == tree.urgencies(apply_fpu, *reduce)[i] by {
                        let sparse = Kids::Sparse(small.slots());
                        assert(tree.kids == sparse);
                        assert(sparse.edge(i, Single::zero_spec()).count == tree.edge(i).count);
                    }
                },
            }
        }
        let mut i: usize = MOVES;
        while i < PADDED
            invariant
                MOVES <= i <= PADDED,
                value@.len() == PADDED,
                forall|j: int|
                    0 <= j < i ==> #[trigger] value@[j] == tree.urgencies(apply_fpu, *reduce)[j],
            decreases PADDED - i,
        {
            value.set(i, Single::neg_infinity());
            i += 1;
        }
        assert(value@ =~= tree.urgencies(apply_fpu, *reduce));
        PUCT::get(self, &mut value, explore);
        value
    }

    /// Returns the child with the maximum score, and adds a virtual loss to it. Returns
    /// `None`, and changes nothing, if that child is already being expanded, or if no child
    /// has a score.
    ///
    /// # Arguments
    ///
    /// * `apply_fpu` - whether to use the first-play urgency heuristic
    /// * `vloss_cnt` - the virtual loss
    /// * `explore` - returns the winrate of a move with its exploration bonus applied, given
    ///   the winrate, the prior, the visits of the node and the visits of the move
    /// * `reduce` - returns the winrate of a move that was never visited, given that of the
    ///   node and the visits of the node
    ///
    pub fn select<E: Fn(Single, Single, i64, i64) -> Single, R: Fn(Single, i64) -> Single>(
        &mut self,
        apply_fpu: bool,
        vloss_cnt: i32,
        explore: &E,
        reduce: &R,
    ) -> (r: Option<usize>)
        requires
            old(self).repr_ok(),
            is_explore(*explore),
            is_reduce(*reduce),
        ensures
            final(self).repr_ok(),
            old(self).wf() ==> final(self).wf(),
            match old(self).view().choice(apply_fpu, *explore, *reduce) {
                Some(i) => {
                    &&& r is Some
                    &&& r->0 == i
                    &&& r->0 < MOVES
                    &&& final(self).view() == old(self).view().chosen(i, vloss_cnt)
                },
                None => {
                    &&& r is None
                    &&& *final(self) == *old(self)
                },
            },
    {
        let ghost tree = self.view();
        let value: Vec<Single> = self.score(apply_fpu, explore, reduce);
        proof {
            lemma_choice(tree, apply_fpu, *explore, *reduce);
        }
        let max_i: usize = match argmax_single(&value) {
            Some(i) => i,
            None => {
                return None;
            },
        };
        proof {
            assert(value@[max_i as int].is_eligible());
        }
        let is_pending = |child: Child| -> (pending: bool)
            ensures
                pending == child.edge().is_pending(),
            {
                child.expanding() && child.ptr().is_none()
            };
        let pending: bool = self.with(max_i, is_pending);
        if pending {
            return None;
        }
        proof {
            self.lemma_subtree(max_i as int);
            lemma_wrap(self.vtotal_count, vloss_cnt);
            lemma_wrap_short(tree.edge(max_i as int).vcount, vloss_cnt);
            if tree.wf() {
                assert(tree.edge(max_i as int).wf());
                lemma_put_wf(
                    tree,
                    max_i as int,
                    tree.edge(max_i as int).taken(vloss_cnt as int),
                );
            }
        }
        let vtotal_count: i32 = self.vtotal_count.wrapping_add(vloss_cnt);
        let mut child = self.child_mut(max_i);
        let prev_vcount: i32 = child.vcount();
        child.set_vcount(prev_vcount.wrapping_add(vloss_cnt));
        child.set_expanding(true);
        let ghost put = self.view();
        self.vtotal_count = vtotal_count;
        proof {
            if tree.wf() {
                lemma_same_kids_wf(put, self.view());
            }
        }
        Some(max_i)
    }
}

} // verus!
