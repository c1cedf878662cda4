use crate::arithmetic::{explored, is_explore, is_reduce, is_visits, reduced};
use crate::children::{BigChildrenImpl, ChildrenImpl, SmallChildrenImpl};
use crate::model::{Kids, Tree, MOVES, PADDED};
use crate::node::Node;
use crate::single::Single;
use vstd::prelude::*;

verus! {

/// An implementation of the _Polynomial UCT_ as suggested in the AlphaGo Zero paper [1].
///
/// [1] https://www.nature.com/articles/nature24270
#[derive(Clone, Copy)]
pub struct PUCT;

/// An implementation of the First-Play Urgency.
pub struct FPU;

impl Tree {
    /// The number of visits of this node, virtual ones included.
    pub open spec fn visits(self) -> i64 {
        (self.total_count + self.vtotal_count) as i64
    }

    /// The given values, those of the moves with the exploration bonus applied.
    pub open spec fn with_bonus<E: Fn(Single, Single, i64, i64) -> Single>(
        self,
        value: Seq<Single>,
        explore: E,
    ) -> Seq<Single> {
        Seq::new(
            value.len(),
            |i: int| if i < MOVES {
                explored(
                    explore,
                    value[i],
                    self.prior[i],
                    self.visits(),
                    self.edge(i).visits() as i64,
                )
            } else {
                value[i]
            },
        )
    }
}

impl PUCT {
    /// Applies the exploration bonus to the values of a dense node.
    fn get_big_impl<E: Fn(Single, Single, i64, i64) -> Single>(
        node: &Node,
        big: &BigChildrenImpl,
        value: &mut Vec<Single>,
        explore: &E,
    )
        requires
            big.wf(),
            node.children matches ChildrenImpl::Big(b) && b == big,
            is_explore(*explore),
            old(value)@.len() >= MOVES,
        ensures
            final(value)@ == node.view().with_bonus(old(value)@, *explore),
    {
        let ghost was = value@;
        let ghost kids = node.children.view();
        let n: i64 = node.total_count as i64 + node.vtotal_count as i64;
        let mut i: usize = 0;
        while i < MOVES
            invariant
                i <= MOVES,
                big.wf(),
                node.children matches ChildrenImpl::Big(b) && b == big,
                kids == node.children.view(),
                is_explore(*explore),
                n == node.view().visits(),
                was.len() >= MOVES,
                value@.len() == was.len(),
                forall|j: int|
                    0 <= j < i ==> value@[j] == #[trigger] node.view().with_bonus(was, *explore)[j],
                forall|j: int| i <= j < was.len() ==> value@[j] == was[j],
            decreases MOVES - i,
        {
            let count: i64 = big.count[i] as i64 + big.vcount[i] as i64;
            assert(kids->Dense_0[i as int] == big.edge_at(i as int));
            let scored: Single = explore(value[i], node.prior[i], n, count);
            value.set(i, scored);
            i += 1;
        }
        assert(value@ =~= node.view().with_bonus(was, *explore));
    }

    /// Applies the exploration bonus to the values of a sparse node.
    fn get_small_impl<E: Fn(Single, Single, i64, i64) -> Single>(
        node: &Node,
        small: &SmallChildrenImpl,
        value: &mut Vec<Single>,
        explore: &E,
    )
        requires
            small.wf(),
            node.children matches ChildrenImpl::Small(s) && s == small,
            is_explore(*explore),
            old(value)@.len() >= MOVES,
        ensures
            final(value)@ == node.view().with_bonus(old(value)@, *explore),
    {
        let ghost was = value@;
        let ghost kids = node.children.view();
        let n: i64 = node.total_count as i64 + node.vtotal_count as i64;
        let mut i: usize = 0;
        while i < MOVES
            invariant
                i <= MOVES,
                small.wf(),
                node.children matches ChildrenImpl::Small(s) && s == small,
                kids == node.children.view(),
                is_explore(*explore),
                n == node.view().visits(),
                was.len() >= MOVES,
                value@.len() == was.len(),
                forall|j: int|
                    0 <= j < i ==> value@[j] == #[trigger] node.view().with_bonus(was, *explore)[j],
                forall|j: int| i <= j < was.len() ==> value@[j] == was[j],
            decreases MOVES - i,
        {
            let count: i64 = match small.find_index_fast(i) {
                Some(other) => {
                    assert(kids->Sparse_0[other as int].1 == small.edge_at(other as int));
                    small.count[other] as i64 + small.vcount[other] as i64
                },
                None => 0,
            };
            let scored: Single = explore(value[i], node.prior[i], n, count);
            value.set(i, scored);
            i += 1;
        }
        assert(value@ =~= node.view().with_bonus(was, *explore));
    }

    /// The PUCT value function.
    ///
    /// # Arguments
    ///
    /// * `node` - the node whose moves are valued
    /// * `value` - the winrates to use in the calculations
    /// * `explore` - returns the winrate of a move with its exploration bonus applied, given
    ///   the winrate, the prior, the visits of the node and the visits of the move
    ///
    pub fn get<E: Fn(Single, Single, i64, i64) -> Single>(
        node: &Node,
        value: &mut Vec<Single>,
        explore: &E,
    )
        requires
            node.children.wf(),
            is_explore(*explore),
            old(value)@.len() >= MOVES,
        ensures
            final(value)@ == node.view().with_bonus(old(value)@, *explore),
    {
        match &node.children {
            ChildrenImpl::Small(small) => PUCT::get_small_impl(node, small, value, explore),
            ChildrenImpl::Big(big) => PUCT::get_big_impl(node, &**big, value, explore),
        }
    }
}

impl FPU {
    /// Apply the first play urgency reduction to all elements in `value` if `count` is zero.
    ///
    /// # Arguments
    ///
    /// * `value` - the value of each element
    /// * `big` - the children storage as a dense node
    /// * `n` - the number of visits of the node
    /// * `reduce` - the reduction to apply
    ///
    pub fn apply_big<R: Fn(Single, i64) -> Single>(
        value: &mut Vec<Single>,
        big: &BigChildrenImpl,
        n: i64,
        reduce: &R,
    )
        requires
            is_reduce(*reduce),
            is_visits(n),
            old(value)@.len() >= PADDED,
        ensures
            final(value)@.len() == old(value)@.len(),
            forall|i: int|
                0 <= i < PADDED ==> #[trigger] final(value)@[i] == if big.count[i] == 0 {
                    reduced(*reduce, old(value)@[i], n)
                } else {
                    old(value)@[i]
                },
            forall|i: int| PADDED <= i < old(value)@.len() ==> final(value)@[i] == old(value)@[i],
    {
        let mut i: usize = 0;
        while i < PADDED
            invariant
                i <= PADDED,
                is_reduce(*reduce),
                is_visits(n),
                value@.len() == old(value)@.len(),
                old(value)@.len() >= PADDED,
                forall|j: int|
                    0 <= j < i ==> #[trigger] value@[j] == if big.count[j] == 0 {
                        reduced(*reduce, old(value)@[j], n)
                    } else {
                        old(value)@[j]
                    },
                forall|j: int| i <= j < value@.len() ==> value@[j] == old(value)@[j],
            decreases PADDED - i,
        {
            if big.count[i] == 0 {
                let less: Single = reduce(value[i], n);
                value.set(i, less);
            }
            i += 1;
        }
    }

    /// Apply the first play urgency reduction to all elements in `value` if `count` is zero.
    ///
    /// # Arguments
    ///
    /// * `value` - the value of each element
    /// * `small` - the children storage as a sparse node
    /// * `n` - the number of visits of the node
    /// * `reduce` - the reduction to apply
    ///
    pub fn apply_small<R: Fn(Single, i64) -> Single>(
        value: &mut Vec<Single>,
        small: &SmallChildrenImpl,
        n: i64,
        reduce: &R,
    )
        requires
            small.wf(),
            is_reduce(*reduce),
            is_visits(n),
            old(value)@.len() >= MOVES,
        ensures
            final(value)@.len() == old(value)@.len(),
            forall|i: int|
                0 <= i < MOVES ==> #[trigger] final(value)@[i] == if Kids::Sparse(
                    small.slots(),
                ).edge(i, Single::zero_spec()).count == 0 {
                    reduced(*reduce, old(value)@[i], n)
                } else {
                    old(value)@[i]
                },
            forall|i: int| MOVES <= i < old(value)@.len() ==> final(value)@[i] == old(value)@[i],
    {
        let ghost kids = Kids::Sparse(small.slots());
        let mut i: usize = 0;
        while i < MOVES
            invariant
                i <= MOVES,
                small.wf(),
                kids == Kids::Sparse(small.slots()),
                is_reduce(*reduce),
                is_visits(n),
                value@.len() == old(value)@.len(),
                old(value)@.len() >= MOVES,
                forall|j: int|
                    0 <= j < i ==> #[trigger] value@[j] == if kids.edge(
                        j,
                        Single::zero_spec(),
                    ).count == 0 {
                        reduced(*reduce, old(value)@[j], n)
                    } else {
                        old(value)@[j]
                    },
                forall|j: int| i <= j < value@.len() ==> value@[j] == old(value)@[j],
            decreases MOVES - i,
        {
            let unvisited: bool = match small.find_index_fast(i) {
                Some(other) => {
                    assert(kids->Sparse_0[other as int].1 == small.edge_at(other as int));
                    small.count[other] == 0
                },
                None => true,
            };
            if unvisited {
                let less: Single = reduce(value[i], n);
                value.set(i, less);
            }
            i += 1;
        }
    }
}

} // verus!
