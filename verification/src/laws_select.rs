//! What a choice among the moves of a node comes down to, in terms of what is stored there.

use crate::arithmetic::{explored, reduced};
use crate::color::Color;
use crate::model::{lemma_put, Tree, MOVES, PADDED, PASS};
use crate::search::placements;
use crate::select::lemma_choice;
use crate::single::{argmax_single_spec, lemma_argmax_single, Single};
use crate::vertex::Placement;
use vstd::prelude::*;

verus! {

/// The order of numbers in terms of their bit patterns: the sign bit makes a number negative,
/// two numbers that are not negative are ordered as their patterns are, and two negative ones
/// the other way round. A pattern whose exponent has all bits set is infinite, or not a number.
pub proof fn law_number_order(a: Single, b: Single)
    ensures
        a.bits < 0x8000_0000 && b.bits < 0x8000_0000 ==> (a.key_spec() < b.key_spec() <==> a.bits
            < b.bits),
        a.bits > 0x8000_0000 && b.bits > 0x8000_0000 ==> (a.key_spec() < b.key_spec() <==> a.bits
            > b.bits),
        a.bits > 0x8000_0000 && b.bits < 0x8000_0000 ==> a.key_spec() < b.key_spec(),
        a.bits == 0x8000_0000 ==> a.key_spec() == 0,
        a.is_nan_spec() <==> 0x7f80_0000 < a.bits < 0x8000_0000 || 0xff80_0000 < a.bits,
        a.is_eligible() <==> !a.is_nan_spec() && a.bits != 0xff80_0000,
        !a.is_nan_spec() && !b.is_nan_spec() ==> (a.rank_spec() < b.rank_spec() <==> a.key_spec()
            < b.key_spec()),
        !a.is_nan_spec() && b.is_nan_spec() ==> a.rank_spec() < b.rank_spec(),
        a.is_nan_spec() && b.is_nan_spec() ==> a.rank_spec() == b.rank_spec(),
        Single::half_spec().bits == 0x3f00_0000,
        Single::zero_spec().bits == 0,
        Single::neg_infinity_spec().bits == 0xff80_0000,
{
}

/// The largest of a sequence of numbers: no element that is a number is larger, those before
/// it are smaller, and there is one unless no element is a number above negative infinity.
pub proof fn law_largest(s: Seq<Single>)
    ensures
        match argmax_single_spec(s) {
            Some(m) => {
                &&& 0 <= m < s.len()
                &&& !s[m].is_nan_spec()
                &&& s[m].bits != 0xff80_0000
                &&& forall|i: int|
                    0 <= i < s.len() && !(#[trigger] s[i]).is_nan_spec() ==> s[i].key_spec()
                        <= s[m].key_spec()
                &&& forall|i: int|
                    0 <= i < m && !(#[trigger] s[i]).is_nan_spec() ==> s[i].key_spec()
                        < s[m].key_spec()
            },
            None => forall|i: int|
                0 <= i < s.len() ==> (#[trigger] s[i]).is_nan_spec() || s[i].bits == 0xff80_0000,
        },
{
    lemma_argmax_single(s);
    if let Some(m) = argmax_single_spec(s) {
        assert forall|i: int| 0 <= i < s.len() && !(#[trigger] s[i]).is_nan_spec() implies
            s[i].key_spec() <= s[m].key_spec() && (i < m ==> s[i].key_spec() < s[m].key_spec()) by {
            if !s[i].is_eligible() {
                assert(s[i].key_spec() == -0x7f80_0000);
            }
        }
    } else {
        assert forall|i: int| 0 <= i < s.len() implies (#[trigger] s[i]).is_nan_spec() || s[i].bits
            == 0xff80_0000 by {
            assert(!s[i].is_eligible());
        }
    }
}

/// The move that is chosen is the first one with the largest score, where the score of a move
/// is its value with a bonus for its prior and the visits of the node and of the move, virtual
/// ones included. The value is the average one of a move that was visited, negative infinity
/// for one that was removed, and otherwise that of the node, reduced if the first play urgency
/// is applied. No move is chosen if no score is a number above negative infinity, or if the
/// first move with the largest score is being expanded and has nothing below it.
pub proof fn law_choice<E: Fn(Single, Single, i64, i64) -> Single, R: Fn(Single, i64) -> Single>(
    tree: Tree,
    apply_fpu: bool,
    explore: E,
    reduce: R,
)
    ensures
        ({
            let n = (tree.total_count + tree.vtotal_count) as i64;
            let worth = |j: int|
                if tree.edge(j).count != 0 || tree.edge(j).value.bits == 0xff80_0000 {
                    tree.edge(j).value
                } else {
                    tree.initial_value
                };
            let score = |j: int|
                explored(
                    explore,
                    if apply_fpu && tree.edge(j).count == 0 {
                        reduced(reduce, worth(j), n)
                    } else {
                        worth(j)
                    },
                    tree.prior[j],
                    n,
                    (tree.edge(j).count + tree.edge(j).vcount) as i64,
                );
            let is_first = |i: int|
                {
                    &&& 0 <= i < MOVES
                    &&& !score(i).is_nan_spec()
                    &&& score(i).bits != 0xff80_0000
                    &&& forall|j: int|
                        0 <= j < MOVES && !(#[trigger] score(j)).is_nan_spec()
                            ==> score(j).key_spec() <= score(i).key_spec() && (j < i
                            ==> score(j).key_spec() < score(i).key_spec())
                };
            match tree.choice(apply_fpu, explore, reduce) {
                Some(i) => is_first(i) && !(tree.edge(i).expanding && tree.edge(i).child is None),
                None => {
                    ||| forall|j: int|
                        0 <= j < MOVES ==> (#[trigger] score(j)).is_nan_spec() || score(j).bits
                            == 0xff80_0000
                    ||| exists|i: int| #[trigger]
                        is_first(i) && tree.edge(i).expanding && tree.edge(i).child is None
                },
            }
        }),
{
    let n = (tree.total_count + tree.vtotal_count) as i64;
    let worth = |j: int|
        if tree.edge(j).count != 0 || tree.edge(j).value.bits == 0xff80_0000 {
            tree.edge(j).value
        } else {
            tree.initial_value
        };
    let score = |j: int|
        explored(
            explore,
            if apply_fpu && tree.edge(j).count == 0 {
                reduced(reduce, worth(j), n)
            } else {
                worth(j)
            },
            tree.prior[j],
            n,
            (tree.edge(j).count + tree.edge(j).vcount) as i64,
        );
    let is_first = |i: int|
        {
            &&& 0 <= i < MOVES
            &&& !score(i).is_nan_spec()
            &&& score(i).bits != 0xff80_0000
            &&& forall|j: int|
                0 <= j < MOVES && !(#[trigger] score(j)).is_nan_spec() ==> score(j).key_spec()
                    <= score(i).key_spec() && (j < i ==> score(j).key_spec() < score(i).key_spec())
        };
    let scores = tree.scores(apply_fpu, explore, reduce);
    assert forall|j: int| 0 <= j < MOVES implies #[trigger] scores[j] == score(j) by {}
    assert forall|j: int|
        MOVES <= j < PADDED implies (#[trigger] scores[j]).bits == 0xff80_0000 by {}
    law_largest(scores);
    lemma_choice(tree, apply_fpu, explore, reduce);
    if let Some(i) = argmax_single_spec(scores) {
        assert(i < MOVES) by {
            assert(scores[i].bits != 0xff80_0000);
        }
        assert forall|j: int| 0 <= j < MOVES && !(#[trigger] score(j)).is_nan_spec() implies
            score(j).key_spec() <= score(i).key_spec() && (j < i ==> score(j).key_spec()
            < score(i).key_spec()) by {
            assert(!scores[j].is_nan_spec());
        }
        assert(is_first(i));
    } else {
        assert forall|j: int| 0 <= j < MOVES implies (#[trigger] score(j)).is_nan_spec() || score(
            j,
        ).bits == 0xff80_0000 by {
            assert(scores[j].is_nan_spec() || scores[j].bits == 0xff80_0000);
        }
    }
}

/// Choosing a move adds a virtual loss to the move and to the node, marks the move as being
/// expanded, and changes nothing else.
pub proof fn law_chosen(tree: Tree, i: int, vloss_cnt: i32)
    requires
        tree.kids.wf(),
        0 <= i < MOVES,
    ensures
        ({
            let next = tree.chosen(i, vloss_cnt);
            &&& next.color == tree.color
            &&& next.initial_value == tree.initial_value
            &&& next.pass_count == tree.pass_count
            &&& next.prior == tree.prior
            &&& next.total_count == tree.total_count
            &&& next.vtotal_count == (tree.vtotal_count + vloss_cnt) as i32
            &&& next.edge(i).count == tree.edge(i).count
            &&& next.edge(i).vcount == (tree.edge(i).vcount + vloss_cnt) as i16
            &&& next.edge(i).value == tree.edge(i).value
            &&& next.edge(i).expanding
            &&& next.edge(i).child == tree.edge(i).child
            &&& forall|j: int| j != i ==> #[trigger] next.edge(j) == tree.edge(j)
        }),
{
    let next = tree.chosen(i, vloss_cnt);
    lemma_put(tree.kids, i, tree.edge(i).taken(vloss_cnt as int), tree.initial_value);
    assert forall|j: int| j != i implies #[trigger] next.edge(j) == tree.edge(j) by {
        assert(next.kids.edge(j, tree.initial_value) == tree.kids.edge(j, tree.initial_value));
    }
}

/// The stones of two paths, one after the other, are those of the first and then those of the
/// second.
pub proof fn law_placements_join(a: Seq<(Color, usize)>, b: Seq<(Color, usize)>)
    ensures
        placements(a + b) == placements(a) + placements(b),
    decreases a.len(),
{
    if a.len() == 0 {
        assert(a + b =~= b);
        assert(placements(a) + placements(b) =~= placements(b));
    } else {
        assert((a + b).drop_first() =~= a.drop_first() + b);
        law_placements_join(a.drop_first(), b);
        assert(placements(a + b) =~= placements(a) + placements(b));
    }
}

/// One more move on a path places one more stone, of the player of the move and on its point,
/// unless it is a pass, which places none.
pub proof fn law_placements(path: Seq<(Color, usize)>, color: Color, m: usize)
    requires
        m < MOVES,
    ensures
        placements(Seq::empty()) == Seq::<Placement>::empty(),
        m == PASS ==> placements(path.push((color, m))) == placements(path),
        m != PASS ==> {
            let all = placements(path.push((color, m)));
            &&& all.len() == placements(path).len() + 1
            &&& all.drop_last() == placements(path)
            &&& all.last().color == color
            &&& all.last().x == m % 19
            &&& all.last().y == m / 19
        },
{
    let one = seq![(color, m)];
    assert(path.push((color, m)) =~= path + one);
    law_placements_join(path, one);
    reveal_with_fuel(placements, 2);
    assert(one.drop_first() =~= Seq::empty());
    if m == PASS {
        assert(placements(path) + placements(one) =~= placements(path));
    } else {
        assert((placements(path) + placements(one)).drop_last() =~= placements(path));
    }
}

/// The other player is another one, and the other player of the other player is the first.
pub proof fn law_opposite(color: Color)
    ensures
        color.opposite_spec() != color,
        color.opposite_spec().opposite_spec() == color,
{
}

} // verus!
