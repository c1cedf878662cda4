use crate::arithmetic::{is_explore, is_reduce};
use crate::children::Child;
use crate::color::Color;
use crate::model::{
    lemma_put, lemma_put_put, lemma_put_wf, lemma_same_kids_wf, Edge, Tree, MOVES, PASS,
};
use crate::node::Node;
use crate::select::{lemma_choice, lemma_wrap, lemma_wrap_short};
use crate::single::Single;
use crate::vertex::{x_of, x_spec, y_of, y_spec, Placement};
use vstd::prelude::*;

verus! {

/// The edges from the root of a tree down to some node: for each node on the way its color,
/// and the move that was taken.
pub type NodeTrace = Vec<(Color, usize)>;

/// The stones that the moves of a path place, where a pass places none.
pub open spec fn placements(path: Seq<(Color, usize)>) -> Seq<Placement>
    decreases path.len(),
{
    if path.len() == 0 {
        Seq::empty()
    } else if path[0].1 == PASS {
        placements(path.drop_first())
    } else {
        seq![
            Placement {
                color: path[0].0,
                x: x_spec(path[0].1 as int) as u8,
                y: y_spec(path[0].1 as int) as u8,
            },
        ] + placements(path.drop_first())
    }
}

impl Tree {
    /// The path that the search takes down this tree, and whether it comes to an end before
    /// a node from which no move is chosen. It ends at the second pass in a row, and at a
    /// move without a sub-tree.
    pub open spec fn walk<
        E: Fn(Single, Single, i64, i64) -> Single,
        R: Fn(Single, i64) -> Single,
    >(self, apply_fpu: bool, explore: E, reduce: R) -> (Seq<(Color, usize)>, bool)
        decreases self,
    {
        match self.choice(apply_fpu, explore, reduce) {
            None => (Seq::empty(), false),
            Some(i) => {
                let here = seq![(self.color, i as usize)];
                if i == PASS && self.pass_count >= 1 {
                    (here, true)
                } else {
                    match self.edge(i).child {
                        None => (here, true),
                        Some(child) => {
                            let rest = child.walk(true, explore, reduce);
                            (here + rest.0, rest.1)
                        },
                    }
                }
            },
        }
    }

    /// This tree with a virtual loss on each edge of the path, which is marked as being
    /// expanded.
    pub open spec fn with_loss(self, path: Seq<(Color, usize)>, loss: int) -> Tree
        decreases path.len(),
    {
        if path.len() == 0 {
            self
        } else {
            let i = path[0].1 as int;
            let child = match self.edge(i).child {
                Some(child) => Some(child.with_loss(path.drop_first(), loss)),
                None => None,
            };
            Tree {
                vtotal_count: (self.vtotal_count + loss) as i32,
                ..self.put(i, Edge { child, ..self.edge(i).taken(loss) })
            }
        }
    }
}

/// Sixteen bits are enough to take back a virtual loss, even one that did not fit.
pub proof fn lemma_vcount_undo(x: i16, v: i32)
    ensures
        (((x + v) as i16) - v) as i16 == x,
        (x + 0) as i16 == x,
{
    assert((((x + v) as i16) - v) as i16 == x) by (bit_vector);
}

/// Thirty-two bits are enough to take back a virtual loss, even one that did not fit.
pub proof fn lemma_vtotal_undo(x: i32, v: i32)
    ensures
        (((x + v) as i32) - v) as i32 == x,
        (x + 0) as i32 == x,
{
    assert((((x + v) as i32) - v) as i32 == x) by (bit_vector);
}

/// How a virtual loss on a path changes the first edge of the path.
proof fn lemma_with_loss_step(
    tree: Tree,
    i: usize,
    below: Tree,
    rest: Seq<(Color, usize)>,
    loss: int,
)
    requires
        tree.edge(i as int).child == Some(below),
    ensures
        ({
            let edge = Edge {
                child: Some(below.with_loss(rest, loss)),
                ..tree.edge(i as int).taken(loss)
            };
            let next = Tree {
                vtotal_count: (tree.vtotal_count + loss) as i32,
                ..tree.put(i as int, edge)
            };
            &&& tree.with_loss(seq![(tree.color, i)] + rest, loss) == next
            &&& tree.wf() && i < MOVES && below.with_loss(rest, loss).wf() ==> next.wf()
        }),
{
    let path = seq![(tree.color, i)] + rest;
    assert(path.drop_first() =~= rest);
    let edge = Edge {
        child: Some(below.with_loss(rest, loss)),
        ..tree.edge(i as int).taken(loss)
    };
    if tree.wf() && i < MOVES && below.with_loss(rest, loss).wf() {
        assert(tree.edge(i as int).wf());
        lemma_put_wf(tree, i as int, edge);
        let put = tree.put(i as int, edge);
        lemma_same_kids_wf(put, Tree { vtotal_count: (tree.vtotal_count + loss) as i32, ..put });
    }
}

/// A move that is chosen, and whose edge is changed after that, has the edge of the change.
proof fn lemma_chosen_put(tree: Tree, i: int, vloss_cnt: i32, edge: Edge)
    requires
        tree.kids.wf(),
        0 <= i < MOVES,
    ensures
        tree.chosen(i, vloss_cnt).put(i, edge) == (Tree {
            vtotal_count: (tree.vtotal_count + vloss_cnt) as i32,
            ..tree.put(i, edge)
        }),
        tree.chosen(i, vloss_cnt).edge(i) == tree.edge(i).taken(vloss_cnt as int),
{
    let first = tree.edge(i).taken(vloss_cnt as int);
    lemma_put_put(tree.kids, i, first, edge, tree.initial_value);
    lemma_put(tree.kids, i, first, tree.initial_value);
}

/// The stones of a path are that of its first move, if it is not a pass, and those of the
/// rest.
proof fn lemma_placements_step(here: Seq<(Color, usize)>, rest: Seq<(Color, usize)>)
    requires
        here.len() == 1,
    ensures
        placements(here + rest) == placements(here) + placements(rest),
{
    reveal_with_fuel(placements, 2);
    assert((here + rest).drop_first() =~= rest);
    assert(here.drop_first() =~= Seq::empty());
    assert(placements(here + rest) =~= placements(here) + placements(rest));
}

/// A path of a single edge.
proof fn lemma_single_step(tree: Tree, i: usize, vloss_cnt: i32)
    ensures
        tree.with_loss(seq![(tree.color, i)], vloss_cnt as int) == tree.chosen(
            i as int,
            vloss_cnt,
        ),
{
    reveal_with_fuel(Tree::with_loss, 2);
    assert(seq![(tree.color, i)].drop_first() =~= Seq::empty());
}

/// Walks down the tree below `node`, and returns whether it came to an end before a node
/// from which no move is chosen. If it did not, then the virtual losses are taken back.
#[verifier::spinoff_prover]
#[verifier::rlimit(60)]
fn descend<E: Fn(Single, Single, i64, i64) -> Single, R: Fn(Single, i64) -> Single>(
    node: &mut Node,
    apply_fpu: bool,
    vloss_cnt: i32,
    explore: &E,
    reduce: &R,
    trace: &mut NodeTrace,
    board: &mut Vec<Placement>,
) -> (ok: bool)
    requires
        old(node).repr_ok(),
        is_explore(*explore),
        is_reduce(*reduce),
    ensures
        final(node).repr_ok(),
        old(node).wf() ==> final(node).wf(),
        ok == old(node).view().walk(apply_fpu, *explore, *reduce).1,
        final(trace)@ == old(trace)@ + old(node).view().walk(apply_fpu, *explore, *reduce).0,
        final(board)@ == old(board)@ + placements(
            old(node).view().walk(apply_fpu, *explore, *reduce).0,
        ),
        final(node).view() == old(node).view().with_loss(
            old(node).view().walk(apply_fpu, *explore, *reduce).0,
            if ok {
                vloss_cnt as int
            } else {
                0
            },
        ),
    decreases old(node).view(),
{
    let ghost tree = node.view();
    let ghost walk = tree.walk(apply_fpu, *explore, *reduce);
    proof {
        lemma_choice(tree, apply_fpu, *explore, *reduce);
        node.children.lemma_view_wf();
    }
    let i: usize = match node.select(apply_fpu, vloss_cnt, explore, reduce) {
        Some(i) => i,
        None => {
            assert(trace@ =~= old(trace)@ + walk.0);
            assert(board@ =~= old(board)@ + placements(walk.0));
            return false;
        },
    };
    let ghost here = seq![(tree.color, i)];
    let ghost edge = tree.edge(i as int);
    let ghost chosen = tree.chosen(i as int, vloss_cnt);
    trace.push((node.color, i));
    proof {
        lemma_single_step(tree, i, vloss_cnt);
        lemma_chosen_put(tree, i as int, vloss_cnt, edge);
        assert(trace@ =~= old(trace)@ + here);
    }
    if i != PASS {
        board.push(Placement { color: node.color, x: x_of(i), y: y_of(i) });
    }
    assert(board@ =~= old(board)@ + placements(here)) by {
        reveal_with_fuel(placements, 2);
        assert(here.drop_first() =~= Seq::empty());
    }
    if i == PASS && node.pass_count >= 1 {
        return true;
    }
    let is_leaf = |child: Child| -> (leaf: bool)
        ensures
            leaf == (child.edge().child is None),
        {
            child.ptr().is_none()
        };
    if node.with(i, is_leaf) {
        return true;
    }
    let ghost below = edge.child->0;
    let ghost rest = below.walk(true, *explore, *reduce);
    let ghost so_far = trace@;
    let ghost stones = board@;
    proof {
        if tree.wf() {
            assert(tree.edge(i as int).wf());
        }
        node.lemma_subtree(i as int);
    }
    let vtotal_count: i32 = node.vtotal_count;
    let mut child = node.child_mut(i);
    let mut ok: bool = true;
    if let Some(next) = &mut *child.ptr {
        assert(next.view() == below);
        ok = descend(&mut **next, true, vloss_cnt, explore, reduce, trace, board);
    }
    if !ok {
        let prev_vcount: i32 = child.vcount();
        child.set_vcount(prev_vcount.wrapping_sub(vloss_cnt));
        node.vtotal_count = vtotal_count.wrapping_sub(vloss_cnt);
    }
    proof {
        let loss = if ok {
            vloss_cnt as int
        } else {
            0
        };
        lemma_with_loss_step(tree, i, below, rest.0, loss);
        lemma_vcount_undo(edge.vcount, vloss_cnt);
        lemma_wrap_short((edge.vcount + vloss_cnt) as i16, vloss_cnt);
        lemma_vtotal_undo(tree.vtotal_count, vloss_cnt);
        lemma_wrap((tree.vtotal_count + vloss_cnt) as i32, vloss_cnt);
        let last = Edge { child: Some(below.with_loss(rest.0, loss)), ..edge.taken(loss) };
        lemma_chosen_put(tree, i as int, vloss_cnt, last);
        lemma_placements_step(here, rest.0);
        assert(trace@ =~= old(trace)@ + walk.0);
        assert(board@ =~= old(board)@ + placements(walk.0));
    }
    ok
}

/// Probe down the search tree, while placing on the given board the stones of the moves
/// that the traversed edges represent, and return a list of the edges. Which edges to
/// traverse is determined according to the UCT algorithm. Each of them gets a virtual loss.
///
/// Returns `None` if a node is reached from which no edge can be traversed. Then there are
/// no more virtual losses than before.
///
/// # Arguments
///
/// * `root` - the search tree to probe into
/// * `board` - the stones that were placed, to which those of the traversed moves are added
/// * `vloss_cnt` - the virtual loss
/// * `explore` - returns the winrate of a move with its exploration bonus applied, given the
///   winrate, the prior, the visits of the node and the visits of the move
/// * `reduce` - returns the winrate of a move that was never visited, given that of the node
///   and the visits of the node
///
pub fn probe<E: Fn(Single, Single, i64, i64) -> Single, R: Fn(Single, i64) -> Single>(
    root: &mut Node,
    board: &mut Vec<Placement>,
    vloss_cnt: i32,
    explore: &E,
    reduce: &R,
) -> (r: Option<NodeTrace>)
    requires
        old(root).repr_ok(),
        is_explore(*explore),
        is_reduce(*reduce),
    ensures
        final(root).repr_ok(),
        old(root).wf() ==> final(root).wf(),
        final(board)@ == old(board)@ + placements(
            old(root).view().walk(false, *explore, *reduce).0,
        ),
        match r {
            Some(trace) => {
                &&& old(root).view().walk(false, *explore, *reduce).1
                &&& trace@ == old(root).view().walk(false, *explore, *reduce).0
                &&& final(root).view() == old(root).view().with_loss(trace@, vloss_cnt as int)
            },
            None => {
                &&& !old(root).view().walk(false, *explore, *reduce).1
                &&& final(root).view() == old(root).view().with_loss(
                    old(root).view().walk(false, *explore, *reduce).0,
                    0,
                )
            },
        },
{
    let mut trace: NodeTrace = Vec::new();
    let ok: bool = descend(root, false, vloss_cnt, explore, reduce, &mut trace, board);
    if ok {
        assert(trace@ =~= old(root).view().walk(false, *explore, *reduce).0);
        Some(trace)
    } else {
        None
    }
}

} // verus!
