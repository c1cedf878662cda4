//! What a tree holds in terms of the fields of its nodes, and what the operations on a single
//! node leave of it.

use crate::arithmetic::{averaged, complemented, explored};
use crate::children::{Child, ChildrenImpl};
use crate::color::Color;
use crate::insert::lemma_attached;
use crate::laws::law_insert_step;
use crate::model::{lemma_put, lemma_slot_of, Edge, Kids, Tree, MOVES, PADDED, PASS, SMALL_SIZE};
use crate::node::Node;
use crate::single::{argmax_count_spec, lemma_argmax_count, Single};
use vstd::prelude::*;

verus! {

/// A tree has the fields of its node.
pub proof fn law_node_fields(node: Node)
    ensures
        node.view().color == node.color,
        node.view().initial_value == node.initial_value,
        node.view().pass_count == node.pass_count,
        node.view().total_count == node.total_count,
        node.view().vtotal_count == node.vtotal_count,
        node.view().prior == node.prior@,
{
}

/// The edge of a move has the fields that are stored for it: at its place in a dense node, or
/// in the slot that holds it in a sparse one.
pub proof fn law_stored_edge(node: Node, i: int, k: int)
    requires
        node.children.wf(),
        0 <= i < MOVES,
        node.children is Small ==> 0 <= k < SMALL_SIZE && node.children->Small_0.indices[k] == i,
    ensures
        match node.children {
            ChildrenImpl::Big(big) => {
                &&& node.view().edge(i).count == big.count[i]
                &&& node.view().edge(i).vcount == big.vcount[i]
                &&& node.view().edge(i).value == big.value[i]
                &&& node.view().edge(i).expanding == big.expanding[i]
                &&& node.view().edge(i).child is Some == big.ptr@[i] is Some
                &&& big.ptr@[i] matches Some(below) ==> node.view().edge(i).child == Some(
                    below.view(),
                )
            },
            ChildrenImpl::Small(small) => {
                &&& node.view().edge(i).count == small.count[k]
                &&& node.view().edge(i).vcount == small.vcount[k]
                &&& node.view().edge(i).value == small.value[k]
                &&& node.view().edge(i).expanding == small.expanding[k]
                &&& node.view().edge(i).child is Some == small.ptr@[k] is Some
                &&& small.ptr@[k] matches Some(below) ==> node.view().edge(i).child == Some(
                    below.view(),
                )
            },
        },
{
    if let ChildrenImpl::Small(small) = node.children {
        let kids = node.children.view();
        small.lemma_view_wf();
        if k >= small.used() {
            assert(small.indices[k] < 0);
        }
        assert(kids.slot_holds(k, i));
        lemma_slot_of(kids, k, i);
    }
}

/// A move that no slot of a sparse node holds has no visit, real or virtual, and nothing below
/// it; its value is that of the node.
pub proof fn law_untouched_edge(node: Node, i: int)
    requires
        node.children is Small,
        node.children.wf(),
        0 <= i,
        forall|k: int| 0 <= k < SMALL_SIZE ==> #[trigger] node.children->Small_0.indices[k] != i,
    ensures
        node.view().edge(i).count == 0,
        node.view().edge(i).vcount == 0,
        node.view().edge(i).value == node.initial_value,
        !node.view().edge(i).expanding,
        node.view().edge(i).child is None,
{
    let kids = node.children.view();
    if kids.has(i) {
        let k = kids.slot_of(i);
        assert(kids.slot_holds(k, i));
        assert(node.children->Small_0.indices[k] == i);
    }
}

/// A child has the fields of the edge that it stands for.
pub proof fn law_child_fields<'a>(child: Child<'a>)
    ensures
        child.edge().count == child.count,
        child.edge().vcount == child.vcount,
        child.edge().value == child.value,
        child.edge().expanding == child.expanding,
        child.edge().child is Some == child.ptr is Some,
        child.ptr matches Some(node) ==> child.edge().child == Some(node.view()),
{
}

/// A fresh node has the given color, value and prior, and none of its moves was touched.
pub proof fn law_leaf(color: Color, value: Single, prior: Seq<Single>)
    ensures
        ({
            let leaf = Tree::leaf(color, value, prior);
            &&& leaf.color == color
            &&& leaf.initial_value == value
            &&& leaf.pass_count == 0
            &&& leaf.total_count == 0
            &&& leaf.vtotal_count == 0
            &&& leaf.prior.len() == PADDED
            &&& forall|i: int| 0 <= i < MOVES ==> #[trigger] leaf.prior[i] == prior[i]
            &&& forall|i: int|
                MOVES <= i < PADDED ==> (#[trigger] leaf.prior[i]).bits == 0xff80_0000
            &&& forall|i: int|
                {
                    &&& (#[trigger] leaf.edge(i)).count == 0
                    &&& leaf.edge(i).vcount == 0
                    &&& leaf.edge(i).value == value
                    &&& !leaf.edge(i).expanding
                    &&& leaf.edge(i).child is None
                }
        }),
{
    let leaf = Tree::leaf(color, value, prior);
    assert forall|i: int| #[trigger] leaf.edge(i) == Edge::blank(value) by {
        assert(!leaf.kids.has(i));
    }
}

/// Replacing the edge of a move changes this edge, and nothing else.
pub proof fn law_put(tree: Tree, i: int, edge: Edge)
    requires
        tree.kids.wf(),
        0 <= i < MOVES,
    ensures
        tree.put(i, edge).color == tree.color,
        tree.put(i, edge).initial_value == tree.initial_value,
        tree.put(i, edge).pass_count == tree.pass_count,
        tree.put(i, edge).total_count == tree.total_count,
        tree.put(i, edge).vtotal_count == tree.vtotal_count,
        tree.put(i, edge).prior == tree.prior,
        tree.put(i, edge).edge(i) == edge,
        forall|j: int| j != i ==> #[trigger] tree.put(i, edge).edge(j) == tree.edge(j),
{
    lemma_put(tree.kids, i, edge, tree.initial_value);
    let next = tree.put(i, edge);
    assert forall|j: int| j != i implies #[trigger] next.edge(j) == tree.edge(j) by {
        assert(next.kids.edge(j, tree.initial_value) == tree.kids.edge(j, tree.initial_value));
    }
}

/// The values that a node shows: the average one of a move that was visited, negative infinity
/// for one that was removed, and the given default for any other, and beyond the moves.
pub proof fn law_values(children: ChildrenImpl, default: Single, i: int)
    ensures
        children.values(default).len() == PADDED,
        0 <= i < MOVES && children.view().edge(i, default).count != 0 ==> children.values(
            default,
        )[i] == children.view().edge(i, default).value,
        0 <= i < MOVES && children.view().edge(i, default).value.bits == 0xff80_0000
            ==> children.values(default)[i].bits == 0xff80_0000,
        0 <= i < MOVES && children.view().edge(i, default).count == 0 && children.view().edge(
            i,
            default,
        ).value.bits != 0xff80_0000 ==> children.values(default)[i] == default,
        MOVES <= i < PADDED ==> children.values(default)[i] == default,
{
}

/// Of several moves with the most visits, the one that was touched first is the busiest in a
/// sparse node, and the one with the smallest number in a dense one.
pub proof fn law_busiest_first(tree: Tree, k: int)
    requires
        tree.wf(),
        0 <= k < tree.kids.width(),
        tree.edge(tree.kids.busiest()).count > 0,
    ensures
        match tree.kids {
            Kids::Sparse(slots) => slots[k].1.count == tree.edge(tree.kids.busiest()).count ==> (
            exists|j: int|
                0 <= j <= k && (#[trigger] slots[j]).0 == tree.kids.busiest() && slots[j].1.count
                    == tree.edge(tree.kids.busiest()).count),
            Kids::Dense(edges) => edges[k].count == tree.edge(tree.kids.busiest()).count
                ==> tree.kids.busiest() <= k,
        },
{
    let kids = tree.kids;
    let counts = kids.place_counts();
    lemma_argmax_count(counts);
    let m = argmax_count_spec(counts);
    if let Kids::Sparse(slots) = kids {
        if m < slots.len() {
            assert(kids.slot_holds(m, slots[m].0));
            lemma_slot_of(kids, m, slots[m].0);
            assert(counts[m] == slots[m].1.count);
            assert(counts[k] == slots[k].1.count);
            assert(tree.edge(kids.busiest()) == slots[m].1);
        } else {
            assert(counts[k] <= counts[m]);
            assert(kids.slot_holds(k, slots[k].0));
            lemma_slot_of(kids, k, slots[k].0);
            assert(tree.edge(slots[k].0).count >= 0);
            assert(counts[k] < counts[m]);
        }
    } else {
        assert(counts[k] <= counts[m]);
    }
}

/// The largest of some numbers of visits: none is larger, and those before it are smaller.
pub proof fn law_largest_count(s: Seq<i32>, i: int)
    requires
        0 <= i < s.len(),
    ensures
        0 <= argmax_count_spec(s) < s.len(),
        s[i] <= s[argmax_count_spec(s)],
        i < argmax_count_spec(s) ==> s[i] < s[argmax_count_spec(s)],
{
    lemma_argmax_count(s);
}

/// Where no move was visited, the busiest one is the one that is laid out first.
pub proof fn law_busiest_none(kids: Kids)
    requires
        kids.wf(),
        forall|k: int| 0 <= k < kids.width() ==> (#[trigger] kids.edge_at(k)).count == 0,
    ensures
        kids.busiest() == if kids.width() > 0 {
            kids.move_at(0)
        } else {
            0
        },
{
    let counts = kids.place_counts();
    lemma_argmax_count(counts);
    let m = argmax_count_spec(counts);
    assert forall|k: int| 0 <= k < counts.len() implies #[trigger] counts[k] == 0 by {
        if k < kids.width() {
            assert(kids.edge_at(k).count == 0);
        }
    }
    if m > 0 {
        assert(counts[0] < counts[m]);
    }
}

/// Moving forward keeps what was explored: the result is what was below the move, with all its
/// counters and edges. Where nothing was below the move, there is a result for a pass only: a
/// fresh node of the other player, with one more pass in a row.
pub proof fn law_forward(tree: Tree, index: int)
    ensures
        tree.edge(index).child matches Some(child) ==> {
            &&& tree.forwarded(index) == Some(child)
            &&& tree.forwarded(index)->0.total_count == child.total_count
            &&& tree.forwarded(index)->0.vtotal_count == child.vtotal_count
            &&& forall|j: int| #[trigger]
                tree.forwarded(index)->0.edge(j) == child.edge(j)
        },
        tree.edge(index).child is None && index != PASS ==> tree.forwarded(index) is None,
        tree.edge(index).child is None && index == PASS ==> {
            let next = tree.forwarded(index)->0;
            &&& tree.forwarded(index) is Some
            &&& next.color != tree.color
            &&& next.initial_value.bits == 0x3f00_0000
            &&& tree.pass_count < i16::MAX ==> next.pass_count == tree.pass_count + 1
            &&& next.total_count == 0
            &&& next.vtotal_count == 0
            &&& next.prior.len() == PADDED
            &&& forall|i: int| 0 <= i < MOVES ==> (#[trigger] next.prior[i]).bits == 0
            &&& forall|i: int|
                MOVES <= i < PADDED ==> (#[trigger] next.prior[i]).bits == 0xff80_0000
            &&& forall|i: int| #[trigger] next.edge(i) == Edge::blank(next.initial_value)
        },
{
    let passed = tree.after_pass();
    assert forall|i: int| #[trigger] passed.edge(i) == Edge::blank(passed.initial_value) by {
        assert(!passed.kids.has(i));
    }
}

/// Removing a move leaves it without visits and with negative infinity for a value, and
/// changes nothing else of it, and nothing of the other moves or of the node.
pub proof fn law_disqualified(tree: Tree, index: int)
    requires
        tree.kids.wf(),
        0 <= index < MOVES,
    ensures
        ({
            let next = tree.disqualified(index);
            &&& next.edge(index).count == 0
            &&& next.edge(index).value.bits == 0xff80_0000
            &&& next.edge(index).vcount == tree.edge(index).vcount
            &&& next.edge(index).expanding == tree.edge(index).expanding
            &&& next.edge(index).child == tree.edge(index).child
            &&& forall|j: int| j != index ==> #[trigger] next.edge(j) == tree.edge(j)
            &&& next.color == tree.color
            &&& next.initial_value == tree.initial_value
            &&& next.pass_count == tree.pass_count
            &&& next.total_count == tree.total_count
            &&& next.vtotal_count == tree.vtotal_count
            &&& next.prior == tree.prior
        }),
{
    law_put(
        tree,
        index,
        Edge { value: Single::neg_infinity_spec(), count: 0, ..tree.edge(index) },
    );
}

/// Searching below a move and then moving forward to it is the same as moving forward first:
/// an insertion along a path of two or more moves, seen from below the first one, is an
/// insertion along the rest of the path.
pub proof fn law_insert_below<C: Fn(Single) -> Single, A: Fn(Single, Single, i32) -> Single>(
    tree: Tree,
    path: Seq<(Color, usize)>,
    color: Color,
    value: Single,
    prior: Seq<Single>,
    vloss_cnt: i32,
    complement: C,
    average: A,
)
    requires
        tree.wf(),
        tree.is_open(path),
        path.len() >= 2,
    ensures
        ({
            let next = tree.inserted(path, color, value, prior, vloss_cnt, complement, average);
            let child = tree.edge(path[0].1 as int).child->0;
            &&& tree.edge(path[0].1 as int).child is Some
            &&& next.forwarded(path[0].1 as int) == Some(
                child.inserted(
                    path.drop_first(),
                    color,
                    value,
                    prior,
                    vloss_cnt,
                    complement,
                    average,
                ),
            )
            &&& next.forwarded(path[0].1 as int)->0.edge(path[1].1 as int).count == child.edge(
                path[1].1 as int,
            ).count + 1
            &&& next.forwarded(path[0].1 as int)->0.total_count == child.total_count + 1
        }),
{
    let i = path[0].1 as int;
    let rest = path.drop_first();
    let edge = tree.edge(i);
    let child = edge.child->0;
    let leaf = Tree::leaf(color, value, prior);
    assert(edge.wf());
    lemma_attached(tree, path, leaf);
    let first = Edge { child: Some(child.attached(rest, leaf)), ..edge };
    law_put(tree, i, first);
    let attached = tree.attached(path, leaf);
    assert(attached.edge(i) == first);
    let count = (edge.count + 1) as i32;
    let last = Edge {
        count,
        vcount: (edge.vcount - vloss_cnt) as i16,
        value: averaged(
            average,
            edge.value,
            attached.own_value(color, value, complement),
            count,
        ),
        child: Some(
            child.attached(rest, leaf).updated(
                rest,
                color,
                value,
                vloss_cnt,
                complement,
                average,
            ),
        ),
        ..edge
    };
    law_put(attached, i, last);
    let next = tree.inserted(path, color, value, prior, vloss_cnt, complement, average);
    assert(next.kids.edge(i, tree.initial_value) == last);
    assert(next.edge(i) == last);
    assert(rest[0] == path[1]);
    law_insert_step(child, rest, color, value, prior, vloss_cnt, complement, average, 0);
}

/// A probe along a path of two or more moves, seen from below the first one, is a probe along
/// the rest of the path.
pub proof fn law_probe_below(tree: Tree, path: Seq<(Color, usize)>, loss: int)
    requires
        tree.wf(),
        tree.is_path(path),
        path.len() >= 2,
    ensures
        tree.with_loss(path, loss).forwarded(path[0].1 as int) == Some(
            tree.edge(path[0].1 as int).child->0.with_loss(path.drop_first(), loss),
        ),
{
    let i = path[0].1 as int;
    let child = tree.edge(i).child->0;
    let last = Edge {
        child: Some(child.with_loss(path.drop_first(), loss)),
        ..tree.edge(i).taken(loss)
    };
    law_put(tree, i, last);
    let next = tree.with_loss(path, loss);
    assert(next.kids.edge(i, tree.initial_value) == last);
    assert(next.edge(i) == last);
}

/// An empty path leads nowhere: neither a probe nor an insertion along it changes anything.
pub proof fn law_empty_path<C: Fn(Single) -> Single, A: Fn(Single, Single, i32) -> Single>(
    tree: Tree,
    color: Color,
    value: Single,
    prior: Seq<Single>,
    loss: int,
    vloss_cnt: i32,
    complement: C,
    average: A,
)
    ensures
        tree.with_loss(Seq::empty(), loss) == tree,
        tree.inserted(Seq::empty(), color, value, prior, vloss_cnt, complement, average) == tree,
        tree.updated(Seq::empty(), color, value, vloss_cnt, complement, average) == tree,
        tree.is_open(Seq::empty()),
{
}

/// A backup changes the node at the start of the path and the move that was taken there by one
/// visit and one virtual loss, and averages in the value of the player of the node, whether or
/// not there is anything below the move. What is below it gets the rest of the backup.
pub proof fn law_update_first<C: Fn(Single) -> Single, A: Fn(Single, Single, i32) -> Single>(
    tree: Tree,
    path: Seq<(Color, usize)>,
    color: Color,
    value: Single,
    vloss_cnt: i32,
    complement: C,
    average: A,
)
    requires
        tree.kids.wf(),
        tree.is_path(path),
        tree.counts_fit(path),
        path.len() > 0,
    ensures
        ({
            let next = tree.updated(path, color, value, vloss_cnt, complement, average);
            let i = path[0].1 as int;
            &&& tree.same_but(next, i)
            &&& next.total_count == tree.total_count + 1
            &&& next.vtotal_count == (tree.vtotal_count - vloss_cnt) as i32
            &&& next.edge(i).count == tree.edge(i).count + 1
            &&& next.edge(i).vcount == (tree.edge(i).vcount - vloss_cnt) as i16
            &&& next.edge(i).expanding == tree.edge(i).expanding
            &&& tree.color == color ==> next.edge(i).value == averaged(
                average,
                tree.edge(i).value,
                value,
                (tree.edge(i).count + 1) as i32,
            )
            &&& tree.color != color ==> next.edge(i).value == averaged(
                average,
                tree.edge(i).value,
                complemented(complement, value),
                (tree.edge(i).count + 1) as i32,
            )
            &&& next.edge(i).child is Some == tree.edge(i).child is Some
            &&& tree.edge(i).child matches Some(child) ==> next.edge(i).child == Some(
                child.updated(path.drop_first(), color, value, vloss_cnt, complement, average),
            )
        }),
{
    let i = path[0].1 as int;
    let edge = tree.edge(i);
    let next = tree.updated(path, color, value, vloss_cnt, complement, average);
    let count = (edge.count + 1) as i32;
    let last = Edge {
        count,
        vcount: (edge.vcount - vloss_cnt) as i16,
        value: averaged(average, edge.value, tree.own_value(color, value, complement), count),
        child: match edge.child {
            Some(child) => Some(
                child.updated(path.drop_first(), color, value, vloss_cnt, complement, average),
            ),
            None => None,
        },
        ..edge
    };
    law_put(tree, i, last);
    assert(next.kids.edge(i, tree.initial_value) == last);
    assert(next.edge(i) == last);
    assert forall|j: int| j != i implies #[trigger] next.edge(j) == tree.edge(j) by {
        assert(tree.put(i, last).edge(j) == tree.edge(j));
    }
}

/// A node can be inserted at the end of a path exactly if every step is one of a move of the
/// game, every step but the last has something below it, one more visit can be counted at each
/// node and move on the way, and one more pass at the last node if the last move is a pass.
pub proof fn law_open(tree: Tree, path: Seq<(Color, usize)>)
    ensures
        tree.is_open(path) <==> {
            &&& forall|k: int|
                0 <= k < path.len() ==> {
                    let node = tree.below(path, k as nat);
                    let i = (#[trigger] path[k]).1 as int;
                    &&& i < MOVES
                    &&& k < path.len() - 1 ==> node.edge(i).child is Some
                    &&& node.total_count < i32::MAX
                    &&& 0 <= node.edge(i).count < i32::MAX
                    &&& k == path.len() - 1 && i == PASS ==> node.pass_count < i16::MAX
                }
        },
    decreases path.len(),
{
    if path.len() > 0 {
        let i = path[0].1 as int;
        let rest = path.drop_first();
        let child = tree.edge(i).child->0;
        if path.len() > 1 && tree.edge(i).child is Some {
            law_open(child, rest);
            assert forall|k: int| 1 <= k < path.len() implies tree.below(path, k as nat)
                == child.below(rest, (k - 1) as nat) && #[trigger] path[k] == rest[k - 1] by {}
            if tree.is_open(path) {
                assert forall|k: int| 0 <= k < path.len() implies {
                    let node = tree.below(path, k as nat);
                    let i = (#[trigger] path[k]).1 as int;
                    &&& i < MOVES
                    &&& k < path.len() - 1 ==> node.edge(i).child is Some
                    &&& node.total_count < i32::MAX
                    &&& 0 <= node.edge(i).count < i32::MAX
                    &&& k == path.len() - 1 && i == PASS ==> node.pass_count < i16::MAX
                } by {
                    if k > 0 {
                        assert(rest[k - 1] == path[k]);
                    }
                }
            }
            if forall|k: int|
                0 <= k < path.len() ==> {
                    let node = tree.below(path, k as nat);
                    let i = (#[trigger] path[k]).1 as int;
                    &&& i < MOVES
                    &&& k < path.len() - 1 ==> node.edge(i).child is Some
                    &&& node.total_count < i32::MAX
                    &&& 0 <= node.edge(i).count < i32::MAX
                    &&& k == path.len() - 1 && i == PASS ==> node.pass_count < i16::MAX
                } {
                assert forall|k: int| 0 <= k < rest.len() implies {
                    let node = child.below(rest, k as nat);
                    let i = (#[trigger] rest[k]).1 as int;
                    &&& i < MOVES
                    &&& k < rest.len() - 1 ==> node.edge(i).child is Some
                    &&& node.total_count < i32::MAX
                    &&& 0 <= node.edge(i).count < i32::MAX
                    &&& k == rest.len() - 1 && i == PASS ==> node.pass_count < i16::MAX
                } by {
                    assert(path[k + 1] == rest[k]);
                    assert(tree.below(path, (k + 1) as nat) == child.below(rest, k as nat));
                }
                assert(child.is_open(rest));
                assert(path[0].1 < MOVES);
                assert(tree.below(path, 0) == tree);
                assert(tree.is_open(path));
            }
        } else {
            assert(tree.below(path, 0) == tree);
            if path.len() == 1 {
                assert(rest =~= Seq::empty());
                if tree.edge(i).child is Some {
                    assert(child.counts_fit(rest));
                }
            }
        }
    }
}

/// The exploration bonus of each move is that for its prior, for the visits of the node, and
/// for those of the move, virtual ones included; nothing is added beyond the moves.
pub proof fn law_bonus<E: Fn(Single, Single, i64, i64) -> Single>(
    tree: Tree,
    value: Seq<Single>,
    explore: E,
    i: int,
)
    requires
        0 <= i < value.len(),
    ensures
        tree.with_bonus(value, explore).len() == value.len(),
        i < MOVES ==> tree.with_bonus(value, explore)[i] == explored(
            explore,
            value[i],
            tree.prior[i],
            (tree.total_count + tree.vtotal_count) as i64,
            (tree.edge(i).count + tree.edge(i).vcount) as i64,
        ),
        i >= MOVES ==> tree.with_bonus(value, explore)[i] == value[i],
{
}

/// A dense node is equivalent to the sparse one that it was made from.
pub proof fn law_dense(kids: Kids, default: Single, i: int)
    requires
        0 <= i < MOVES,
    ensures
        kids.dense(default) is Dense,
        kids.dense(default).edge(i, default) == kids.edge(i, default),
{
}

/// A node stays sparse until a ninth move is touched, and never becomes sparse again.
pub proof fn law_layout(kids: Kids, i: int, edge: Edge, default: Single)
    requires
        kids.wf(),
        0 <= i < MOVES,
    ensures
        kids is Dense ==> kids.put(i, edge, default) is Dense,
        kids is Sparse ==> (kids.put(i, edge, default) is Dense <==> !kids.has(i)
            && kids->Sparse_0.len() == 8),
        kids is Sparse && kids.put(i, edge, default) is Sparse ==> {
            let a = kids->Sparse_0;
            let b = kids.put(i, edge, default)->Sparse_0;
            &&& forall|k: int| 0 <= k < a.len() ==> (#[trigger] b[k]).0 == a[k].0
            &&& b.len() == if kids.has(i) {
                a.len()
            } else {
                a.len() + 1
            }
        },
{
    if kids is Sparse && kids.has(i) {
        assert(kids.slot_holds(kids.slot_of(i), i));
    }
}

} // verus!
