//! What a game record holds: every position that was examined, once, most visited moves first.

use crate::arithmetic::explored;
use crate::color::Color;
use crate::laws_text::{
    lemma_decimal_none, lemma_occurrences_join, lemma_occurrences_none, occurrences, occurs,
};
use crate::model::{Tree, MOVES, PASS};
use crate::notation::{named, written};
use crate::percentile::upto;
use crate::rank::{place, ranked};
use crate::sgf::{player, point, Position, ToSgf, LABELS};
use crate::single::Single;
use crate::text::decimal;
use vstd::prelude::*;

verus! {

/// Whether the moves come by decreasing number of visits, and those with as many visits in
/// ascending order.
spec fn is_ordered(counts: Seq<i32>, moves: Seq<usize>) -> bool {
    forall|j: int, k: int|
        0 <= j < k < moves.len() ==> counts[(#[trigger] moves[j]) as int] > counts[(
        #[trigger] moves[k]) as int] || (counts[moves[j] as int] == counts[moves[k] as int]
            && moves[j] < moves[k])
}

proof fn lemma_place_ordered(counts: Seq<i32>, moves: Seq<usize>, m: usize)
    requires
        is_ordered(counts, moves),
        forall|k: int| 0 <= k < moves.len() ==> #[trigger] moves[k] < m,
    ensures
        is_ordered(counts, place(counts, moves, m)),
        place(counts, moves, m).len() == moves.len() + 1,
        forall|k: int|
            0 <= k <= moves.len() ==> #[trigger] place(counts, moves, m)[k] == m || moves.contains(
                place(counts, moves, m)[k],
            ),
        place(counts, moves, m).contains(m),
        forall|k: int|
            0 <= k < moves.len() ==> place(counts, moves, m).contains(#[trigger] moves[k]),
    decreases moves.len(),
{
    let next = place(counts, moves, m);
    if moves.len() == 0 || counts[moves.last() as int] >= counts[m as int] {
        assert(next[moves.len() as int] == m);
        assert forall|k: int| 0 <= k < moves.len() implies next.contains(#[trigger] moves[k]) by {
            assert(next[k] == moves[k]);
        }
        assert forall|k: int| 0 <= k <= moves.len() implies #[trigger] next[k] == m
            || moves.contains(next[k]) by {
            if k < moves.len() {
                assert(moves[k] == next[k]);
            }
        }
        assert forall|j: int, k: int| 0 <= j < k < next.len() implies counts[(
        #[trigger] next[j]) as int] > counts[(#[trigger] next[k]) as int] || (counts[next[j] as int]
            == counts[next[k] as int] && next[j] < next[k]) by {
            assert(next[j] == moves[j]);
            if k < moves.len() {
                assert(next[k] == moves[k]);
            } else {
                assert(moves[j] < m);
                if j < moves.len() - 1 {
                    assert(counts[moves[j] as int] >= counts[moves[moves.len() - 1] as int]);
                }
            }
        }
    } else {
        let init = moves.drop_last();
        let last = moves.last();
        assert forall|k: int| 0 <= k < init.len() implies #[trigger] init[k] < m by {
            assert(init[k] == moves[k]);
        }
        assert(is_ordered(counts, init)) by {
            assert forall|j: int, k: int| 0 <= j < k < init.len() implies counts[(
            #[trigger] init[j]) as int] > counts[(#[trigger] init[k]) as int] || (counts[
            init[j] as int] == counts[init[k] as int] && init[j] < init[k]) by {
                assert(init[j] == moves[j]);
                assert(init[k] == moves[k]);
            }
        }
        lemma_place_ordered(counts, init, m);
        let placed = place(counts, init, m);
        assert(next == placed.push(last));
        assert forall|k: int| 0 <= k <= moves.len() implies #[trigger] next[k] == m
            || moves.contains(next[k]) by {
            if k < placed.len() {
                assert(next[k] == placed[k]);
                if placed[k] != m {
                    let j = choose|j: int| 0 <= j < init.len() && init[j] == placed[k];
                    assert(moves[j] == next[k]);
                }
            } else {
                assert(moves[moves.len() - 1] == next[k]);
            }
        }
        assert(next.contains(m)) by {
            let k = choose|k: int| 0 <= k < placed.len() && placed[k] == m;
            assert(next[k] == m);
        }
        assert forall|k: int| 0 <= k < moves.len() implies next.contains(#[trigger] moves[k]) by {
            if k < init.len() {
                assert(placed.contains(init[k]));
                let j = choose|j: int| 0 <= j < placed.len() && placed[j] == init[k];
                assert(next[j] == moves[k]);
            } else {
                assert(next[placed.len() as int] == moves[k]);
            }
        }
        assert forall|j: int, k: int| 0 <= j < k < next.len() implies counts[(
        #[trigger] next[j]) as int] > counts[(#[trigger] next[k]) as int] || (counts[next[j] as int]
            == counts[next[k] as int] && next[j] < next[k]) by {
            assert(next[j] == placed[j]);
            if k < placed.len() {
                assert(next[k] == placed[k]);
            } else if placed[j] != m {
                let i = choose|i: int| 0 <= i < init.len() && init[i] == placed[j];
                assert(moves[i] == placed[j]);
                assert(moves[moves.len() - 1] == last);
            }
        }
    }
}

proof fn lemma_ranked_ordered(counts: Seq<i32>, n: nat)
    requires
        n <= usize::MAX,
    ensures
        is_ordered(counts, ranked(counts, upto(n))),
        ranked(counts, upto(n)).len() == n,
        forall|k: int| 0 <= k < n ==> #[trigger] ranked(counts, upto(n))[k] < n,
        forall|i: usize| i < n ==> #[trigger] ranked(counts, upto(n)).contains(i),
    decreases n,
{
    if n > 0 {
        let m = (n - 1) as nat;
        lemma_ranked_ordered(counts, m);
        let before = ranked(counts, upto(m));
        assert(upto(n).drop_last() =~= upto(m));
        lemma_place_ordered(counts, before, m as usize);
        let all = ranked(counts, upto(n));
        assert(all == place(counts, before, m as usize));
        assert forall|k: int| 0 <= k < n implies #[trigger] all[k] < n by {
            if all[k] != m {
                let j = choose|j: int| 0 <= j < before.len() && before[j] == all[k];
                assert(before[j] < m);
            }
        }
        assert forall|i: usize| i < n implies #[trigger] all.contains(i) by {
            if i < m {
                assert(before.contains(i));
                let j = choose|j: int| 0 <= j < before.len() && before[j] == i;
                assert(all.contains(before[j]));
            }
        }
    }
}

/// The moves in the order of a record: each of them once, by decreasing number of visits, and
/// those with as many visits in ascending order.
pub proof fn law_by_visits(tree: Tree)
    ensures
        tree.by_visits().len() == MOVES,
        tree.by_visits().no_duplicates(),
        forall|k: int| 0 <= k < MOVES ==> #[trigger] tree.by_visits()[k] < MOVES,
        forall|i: usize| i < MOVES ==> #[trigger] tree.by_visits().contains(i),
        forall|j: int, k: int|
            0 <= j < k < MOVES ==> {
                let a = (#[trigger] tree.by_visits()[j]) as int;
                let b = (#[trigger] tree.by_visits()[k]) as int;
                tree.edge(a).count > tree.edge(b).count || (tree.edge(a).count == tree.edge(
                    b,
                ).count && a < b)
            },
{
    lemma_ranked_ordered(tree.counts(), MOVES as nat);
    let order = tree.by_visits();
    assert forall|j: int, k: int| 0 <= j < k < MOVES implies {
        let a = (#[trigger] order[j]) as int;
        let b = (#[trigger] order[k]) as int;
        tree.edge(a).count > tree.edge(b).count || (tree.edge(a).count == tree.edge(b).count && a
            < b)
    } by {
        assert(tree.counts()[order[j] as int] == tree.edge(order[j] as int).count);
        assert(tree.counts()[order[k] as int] == tree.edge(order[k] as int).count);
    }
    assert forall|j: int, k: int| 0 <= j < order.len() && 0 <= k < order.len() && j != k implies
        order[j] != order[k] by {
        if j < k {
            assert(order[j] != order[k]);
        } else {
            assert(order[k] != order[j]);
        }
    }
}

/// The records of two lists of moves are those of the one and then those of the other.
proof fn lemma_variations_join<
    S: Fn(usize, usize) -> String,
    E: Fn(Single, Single, i64, i64) -> Single,
    N: Fn(Single, usize) -> String,
>(
    tree: Tree,
    a: Seq<usize>,
    b: Seq<usize>,
    meta: bool,
    coordinate: S,
    explore: E,
    number: N,
)
    ensures
        tree.variations(a + b, meta, coordinate, explore, number) == tree.variations(
            a,
            meta,
            coordinate,
            explore,
            number,
        ) + tree.variations(b, meta, coordinate, explore, number),
    decreases b.len(),
{
    let x = tree.variations(a, meta, coordinate, explore, number);
    if b.len() == 0 {
        assert(a + b =~= a);
        assert(x + tree.variations(b, meta, coordinate, explore, number) =~= x);
    } else {
        let init = b.drop_last();
        assert((a + b).drop_last() =~= a + init);
        assert((a + b).last() == b.last());
        lemma_variations_join(tree, a, init, meta, coordinate, explore, number);
        assert(tree.variations(a + b, meta, coordinate, explore, number) =~= x + tree.variations(
            b,
            meta,
            coordinate,
            explore,
            number,
        ));
    }
}

/// The record of a single move.
proof fn lemma_variation<
    S: Fn(usize, usize) -> String,
    E: Fn(Single, Single, i64, i64) -> Single,
    N: Fn(Single, usize) -> String,
>(tree: Tree, i: usize, meta: bool, coordinate: S, explore: E, number: N)
    requires
        tree.edge(i as int).count != 0,
    ensures
        tree.variations(seq![i], meta, coordinate, explore, number) == "(;"@ + (
        if tree.color == Color::Black {
            "B"@
        } else {
            "W"@
        }) + "["@ + (if i == PASS {
            "tt"@
        } else {
            named(coordinate, (i % 19) as usize, (i / 19) as usize)
        }) + "]C[prior "@ + written(number, tree.prior[i as int], 4) + " value "@ + written(
            number,
            tree.edge(i as int).value,
            4,
        ) + " (visits "@ + decimal(tree.edge(i as int).count as int) + " / total "@ + decimal(
            tree.total_count as int,
        ) + ") uct "@ + written(
            number,
            explored(
                explore,
                tree.edge(i as int).value,
                tree.prior[i as int],
                (tree.total_count + tree.vtotal_count) as i64,
                (tree.edge(i as int).count + tree.edge(i as int).vcount) as i64,
            ),
            4,
        ) + "]"@ + (match tree.edge(i as int).child {
            Some(child) => child.sgf(meta, coordinate, explore, number),
            None => Seq::empty(),
        }) + ")"@,
{
    let one = seq![i];
    assert(one.drop_last() =~= Seq::empty());
    assert(one.last() == i);
    assert(tree.variations(one.drop_last(), meta, coordinate, explore, number) =~= Seq::empty());
    reveal_strlit("]");
    reveal_strlit("C[prior ");
    reveal_strlit("]C[prior ");
    assert("]"@ + "C[prior "@ =~= "]C[prior "@);
    let at = if i == PASS {
        "tt"@
    } else {
        named(coordinate, (i % 19) as usize, (i / 19) as usize)
    };
    let head = "(;"@ + player(tree.color) + "["@ + at;
    let tail = written(number, tree.prior[i as int], 4) + " value "@ + written(
        number,
        tree.edge(i as int).value,
        4,
    ) + " (visits "@ + decimal(tree.edge(i as int).count as int) + " / total "@ + decimal(
        tree.total_count as int,
    ) + ") uct "@ + written(
        number,
        explored(
            explore,
            tree.edge(i as int).value,
            tree.prior[i as int],
            tree.visits(),
            tree.edge(i as int).visits() as i64,
        ),
        4,
    ) + "]"@;
    let remark = tree.remark(i as int, explore, number);
    assert(remark =~= "C[prior "@ + tail);
    let played = tree.played(i as int, coordinate, explore, number);
    assert(played == head + "]"@ + remark);
    assert(played =~= head + ("]"@ + "C[prior "@) + tail);
    let below = match tree.edge(i as int).child {
        Some(child) => child.sgf(meta, coordinate, explore, number),
        None => Seq::empty(),
    };
    assert(tree.variations(one, meta, coordinate, explore, number) =~= played + below + ")"@);
    let flat = head + "]C[prior "@ + written(number, tree.prior[i as int], 4) + " value "@
        + written(number, tree.edge(i as int).value, 4) + " (visits "@ + decimal(
        tree.edge(i as int).count as int,
    ) + " / total "@ + decimal(tree.total_count as int) + ") uct "@ + written(
        number,
        explored(
            explore,
            tree.edge(i as int).value,
            tree.prior[i as int],
            tree.visits(),
            tree.edge(i as int).visits() as i64,
        ),
        4,
    ) + "]"@;
    assert(flat =~= head + "]C[prior "@ + tail);
}

/// Whether a text occurs in another one, and a third one behind it.
pub open spec fn follows(first: Seq<char>, second: Seq<char>, whole: Seq<char>) -> bool {
    exists|a: Seq<char>, b: Seq<char>, c: Seq<char>|
        whole == #[trigger] (a + first + b + second + c)
}

/// The records of single moves are where they should be in the whole.
proof fn lemma_record<
    S: Fn(usize, usize) -> String,
    E: Fn(Single, Single, i64, i64) -> Single,
    N: Fn(Single, usize) -> String,
>(tree: Tree, i: usize, j: usize, meta: bool, coordinate: S, explore: E, number: N)
    requires
        i < MOVES,
        j < MOVES,
    ensures
        occurs(
            tree.variations(seq![i], meta, coordinate, explore, number),
            tree.sgf(meta, coordinate, explore, number),
        ),
        tree.edge(i as int).count > tree.edge(j as int).count || (tree.edge(i as int).count
            == tree.edge(j as int).count && i < j) ==> follows(
            tree.variations(seq![i], meta, coordinate, explore, number),
            tree.variations(seq![j], meta, coordinate, explore, number),
            tree.sgf(meta, coordinate, explore, number),
        ),
{
    let order = tree.by_visits();
    let (p, q) = lemma_places(tree, i, j);
    let labels = if meta {
        tree.labels(coordinate, LABELS as nat)
    } else {
        Seq::empty()
    };
    let whole = tree.sgf(meta, coordinate, explore, number);
    let ri = tree.variations(seq![i], meta, coordinate, explore, number);
    let rj = tree.variations(seq![j], meta, coordinate, explore, number);
    lemma_split(tree, order, p, meta, coordinate, explore, number);
    let back = order.skip(p + 1);
    let a = tree.variations(order.take(p), meta, coordinate, explore, number);
    let z = tree.variations(back, meta, coordinate, explore, number);
    assert(whole == labels + (a + ri + z));
    lemma_in_front(labels, a, ri, z);
    assert(occurs(ri, whole));
    if p < q {
        lemma_split(tree, back, q - p - 1, meta, coordinate, explore, number);
        let b = tree.variations(back.take(q - p - 1), meta, coordinate, explore, number);
        let c = tree.variations(back.skip(q - p), meta, coordinate, explore, number);
        assert(z == b + rj + c);
        lemma_behind(labels + a, ri, b, rj, c);
        assert(whole == (labels + a) + ri + b + rj + c);
        assert(follows(ri, rj, whole));
    }
}

proof fn lemma_in_front(labels: Seq<char>, a: Seq<char>, r: Seq<char>, z: Seq<char>)
    ensures
        labels + (a + r + z) == (labels + a) + r + z,
{
    assert(labels + (a + r + z) =~= (labels + a) + r + z);
}

proof fn lemma_behind(a: Seq<char>, r: Seq<char>, b: Seq<char>, s: Seq<char>, c: Seq<char>)
    ensures
        a + r + (b + s + c) == a + r + b + s + c,
{
    assert(a + r + (b + s + c) =~= a + r + b + s + c);
}

/// Where two moves stand in the order of a record.
proof fn lemma_places(tree: Tree, i: usize, j: usize) -> (places: (int, int))
    requires
        i < MOVES,
        j < MOVES,
    ensures
        0 <= places.0 < tree.by_visits().len(),
        0 <= places.1 < tree.by_visits().len(),
        tree.by_visits()[places.0] == i,
        tree.by_visits()[places.1] == j,
        tree.edge(i as int).count > tree.edge(j as int).count || (tree.edge(i as int).count
            == tree.edge(j as int).count && i < j) ==> places.0 < places.1,
{
    let order = tree.by_visits();
    law_by_visits(tree);
    assert(order.contains(i));
    assert(order.contains(j));
    let p = choose|p: int| 0 <= p < order.len() && order[p] == i;
    let q = choose|q: int| 0 <= q < order.len() && order[q] == j;
    if q < p {
        let a = order[q] as int;
        let b = order[p] as int;
        assert(tree.edge(a).count > tree.edge(b).count || (tree.edge(a).count == tree.edge(b).count
            && a < b));
    }
    (p, q)
}

/// The records of a list of moves, split at one of them.
proof fn lemma_split<
    S: Fn(usize, usize) -> String,
    E: Fn(Single, Single, i64, i64) -> Single,
    N: Fn(Single, usize) -> String,
>(tree: Tree, moves: Seq<usize>, p: int, meta: bool, coordinate: S, explore: E, number: N)
    requires
        0 <= p < moves.len(),
    ensures
        tree.variations(moves, meta, coordinate, explore, number) == tree.variations(
            moves.take(p),
            meta,
            coordinate,
            explore,
            number,
        ) + tree.variations(seq![moves[p]], meta, coordinate, explore, number) + tree.variations(
            moves.skip(p + 1),
            meta,
            coordinate,
            explore,
            number,
        ),
{
    let front = moves.take(p);
    let one = seq![moves[p]];
    let back = moves.skip(p + 1);
    assert(moves =~= (front + one) + back);
    lemma_variations_join(tree, front + one, back, meta, coordinate, explore, number);
    lemma_variations_join(tree, front, one, meta, coordinate, explore, number);
}

/// The record holds every examined position, most visited moves first: for any two moves that
/// were visited, whichever player's, it holds the record of the one that comes first and behind
/// that the record of the other. The record of a move names the player and the point, says what
/// is known of the move, and holds the whole record of what was explored below it.
pub proof fn law_record<
    S: Fn(usize, usize) -> String,
    E: Fn(Single, Single, i64, i64) -> Single,
    N: Fn(Single, usize) -> String,
>(tree: Tree, i: usize, j: usize, meta: bool, coordinate: S, explore: E, number: N)
    requires
        i < MOVES,
        j < MOVES,
        tree.edge(i as int).count != 0,
        tree.edge(j as int).count != 0,
    ensures
        ({
            let record = |m: int|
                "(;"@ + (if tree.color == Color::Black {
                    "B"@
                } else {
                    "W"@
                }) + "["@ + (if m == 361 {
                    "tt"@
                } else {
                    named(coordinate, (m % 19) as usize, (m / 19) as usize)
                }) + "]C[prior "@ + written(number, tree.prior[m], 4) + " value "@ + written(
                    number,
                    tree.edge(m).value,
                    4,
                ) + " (visits "@ + decimal(tree.edge(m).count as int) + " / total "@ + decimal(
                    tree.total_count as int,
                ) + ") uct "@ + written(
                    number,
                    explored(
                        explore,
                        tree.edge(m).value,
                        tree.prior[m],
                        (tree.total_count + tree.vtotal_count) as i64,
                        (tree.edge(m).count + tree.edge(m).vcount) as i64,
                    ),
                    4,
                ) + "]"@ + (match tree.edge(m).child {
                    Some(child) => child.sgf(meta, coordinate, explore, number),
                    None => Seq::empty(),
                }) + ")"@;
            let whole = tree.sgf(meta, coordinate, explore, number);
            &&& occurs(record(i as int), whole)
            &&& tree.edge(i as int).count > tree.edge(j as int).count || (tree.edge(i as int).count
                == tree.edge(j as int).count && i < j) ==> follows(
                record(i as int),
                record(j as int),
                whole,
            )
        }),
{
    lemma_record(tree, i, j, meta, coordinate, explore, number);
    lemma_variation(tree, i, meta, coordinate, explore, number);
    lemma_variation(tree, j, meta, coordinate, explore, number);
}

/// None of the fixed pieces of a record but the start of a move, and of a label, holds a
/// semicolon or a colon.
proof fn lemma_pieces(c: char)
    requires
        c == ';' || c == ':',
    ensures
        occurrences("B"@, c) == 0,
        occurrences("W"@, c) == 0,
        occurrences("["@, c) == 0,
        occurrences("tt"@, c) == 0,
        occurrences("]"@, c) == 0,
        occurrences("C[prior "@, c) == 0,
        occurrences(" value "@, c) == 0,
        occurrences(" (visits "@, c) == 0,
        occurrences(" / total "@, c) == 0,
        occurrences(") uct "@, c) == 0,
        occurrences(")"@, c) == 0,
        occurrences("LB["@, c) == 0,
        occurrences("AB["@, c) == 0,
        occurrences("AW["@, c) == 0,
        occurrences("(;"@, c) == if c == ';' {
            1int
        } else {
            0
        },
        occurrences(":"@, c) == if c == ':' {
            1int
        } else {
            0
        },
{
    reveal_with_fuel(occurrences, 3);
    reveal_strlit("B");
    reveal_strlit("W");
    reveal_strlit("[");
    reveal_strlit("tt");
    reveal_strlit("]");
    reveal_strlit("C[prior ");
    reveal_strlit(" value ");
    reveal_strlit(" (visits ");
    reveal_strlit(" / total ");
    reveal_strlit(") uct ");
    reveal_strlit(")");
    reveal_strlit("LB[");
    reveal_strlit("AB[");
    reveal_strlit("AW[");
    reveal_strlit("(;");
    reveal_strlit(":");
    lemma_occurrences_none("B"@, c);
    lemma_occurrences_none("W"@, c);
    lemma_occurrences_none("["@, c);
    lemma_occurrences_none("tt"@, c);
    lemma_occurrences_none("]"@, c);
    lemma_occurrences_none("C[prior "@, c);
    lemma_occurrences_none(" value "@, c);
    lemma_occurrences_none(" (visits "@, c);
    lemma_occurrences_none(" / total "@, c);
    lemma_occurrences_none(") uct "@, c);
    lemma_occurrences_none(")"@, c);
    lemma_occurrences_none("LB["@, c);
    lemma_occurrences_none("AB["@, c);
    lemma_occurrences_none("AW["@, c);
    assert("(;"@.drop_last() =~= seq!['(']);
    assert(seq!['('].drop_last() =~= Seq::empty());
    assert(":"@.drop_last() =~= Seq::empty());
}

impl Tree {
    /// How many of the `n` most visited moves are given a label: those that were visited and are
    /// no pass.
    pub open spec fn labelled(self, n: nat) -> int
        decreases n,
    {
        if n == 0 {
            0
        } else {
            let i = self.by_visits()[n - 1] as int;
            self.labelled((n - 1) as nat) + if i != 361 && self.edge(i).count > 0 {
                1int
            } else {
                0
            }
        }
    }

    /// How many positions were examined below the given moves: one for each of them that was
    /// visited, and those that were examined below that.
    pub open spec fn examined_below(self, moves: Seq<usize>) -> int
        decreases self, 0nat, moves.len(),
    {
        if moves.len() == 0 {
            0
        } else {
            let i = moves.last() as int;
            self.examined_below(moves.drop_last()) + if self.edge(i).count == 0 {
                0int
            } else {
                match self.edge(i).child {
                    Some(child) => 1 + child.examined(),
                    None => 1,
                }
            }
        }
    }

    /// How many positions were examined in this tree.
    pub open spec fn examined(self) -> int
        decreases self, 1nat, 0nat,
    {
        self.examined_below(upto(MOVES as nat))
    }

    /// How many labels there are below the given moves, ten at most for each node.
    pub open spec fn labels_below(self, moves: Seq<usize>) -> int
        decreases self, 0nat, moves.len(),
    {
        if moves.len() == 0 {
            0
        } else {
            let i = moves.last() as int;
            self.labels_below(moves.drop_last()) + if self.edge(i).count == 0 {
                0int
            } else {
                match self.edge(i).child {
                    Some(child) => child.all_labels(),
                    None => 0,
                }
            }
        }
    }

    /// How many labels there are in this tree, ten at most for each node.
    pub open spec fn all_labels(self) -> int
        decreases self, 1nat, 0nat,
    {
        self.labelled(10) + self.labels_below(upto(MOVES as nat))
    }
}

proof fn lemma_place_examined(tree: Tree, moves: Seq<usize>, m: usize)
    ensures
        ({
            let next = place(tree.counts(), moves, m);
            &&& tree.examined_below(next) == tree.examined_below(moves) + tree.examined_below(
                seq![m],
            )
            &&& tree.labels_below(next) == tree.labels_below(moves) + tree.labels_below(seq![m])
        }),
    decreases moves.len(),
{
    let counts = tree.counts();
    let next = place(counts, moves, m);
    reveal_with_fuel(Tree::examined_below, 2);
    reveal_with_fuel(Tree::labels_below, 2);
    assert(seq![m].drop_last() =~= Seq::empty());
    assert(tree.examined_below(Seq::empty()) == 0);
    assert(tree.labels_below(Seq::empty()) == 0);
    if moves.len() == 0 || counts[moves.last() as int] >= counts[m as int] {
        assert(next.drop_last() =~= moves);
    } else {
        let init = moves.drop_last();
        lemma_place_examined(tree, init, m);
        assert(next.drop_last() =~= place(counts, init, m));
        assert(next.last() == moves.last());
    }
}

/// Ranking the moves changes neither what was examined below them nor the labels there.
proof fn lemma_ranked_examined(tree: Tree, n: nat)
    requires
        n <= MOVES,
    ensures
        tree.examined_below(ranked(tree.counts(), upto(n))) == tree.examined_below(upto(n)),
        tree.labels_below(ranked(tree.counts(), upto(n))) == tree.labels_below(upto(n)),
    decreases n,
{
    if n > 0 {
        let m = (n - 1) as nat;
        lemma_ranked_examined(tree, m);
        assert(upto(n).drop_last() =~= upto(m));
        assert(upto(n).last() == m as usize);
        lemma_place_examined(tree, ranked(tree.counts(), upto(m)), m as usize);
        let one = seq![m as usize];
        assert(one.drop_last() =~= Seq::empty());
        assert(tree.examined_below(Seq::empty()) == 0);
        assert(tree.labels_below(Seq::empty()) == 0);
    } else {
        assert(upto(n) =~= Seq::empty());
    }
}

/// Whether neither a point nor a number, as it is written, holds the given character.
pub open spec fn is_free<S: Fn(usize, usize) -> String, N: Fn(Single, usize) -> String>(
    coordinate: S,
    number: N,
    c: char,
) -> bool {
    &&& forall|x: usize, y: usize| occurrences(#[trigger] named(coordinate, x, y), c) == 0
    &&& forall|v: Single, d: usize| occurrences(#[trigger] written(number, v, d), c) == 0
}

proof fn lemma_remark_pieces<
    S: Fn(usize, usize) -> String,
    E: Fn(Single, Single, i64, i64) -> Single,
    N: Fn(Single, usize) -> String,
>(tree: Tree, i: int, coordinate: S, explore: E, number: N, c: char)
    requires
        c == ';' || c == ':',
        is_free(coordinate, number, c),
    ensures
        occurrences(tree.remark(i, explore, number), c) == 0,
{
    lemma_pieces(c);
    let uct = explored(
        explore,
        tree.edge(i).value,
        tree.prior[i],
        tree.visits(),
        tree.edge(i).visits() as i64,
    );
    lemma_decimal_none(tree.edge(i).count as int, c);
    lemma_decimal_none(tree.total_count as int, c);
    let t0 = "C[prior "@;
    let t1 = t0 + written(number, tree.prior[i], 4);
    let t2 = t1 + " value "@;
    let t3 = t2 + written(number, tree.edge(i).value, 4);
    let t4 = t3 + " (visits "@;
    let t5 = t4 + decimal(tree.edge(i).count as int);
    let t6 = t5 + " / total "@;
    let t7 = t6 + decimal(tree.total_count as int);
    let t8 = t7 + ") uct "@;
    let t9 = t8 + written(number, uct, 4);
    lemma_occurrences_join(t0, written(number, tree.prior[i], 4), c);
    lemma_occurrences_join(t1, " value "@, c);
    lemma_occurrences_join(t2, written(number, tree.edge(i).value, 4), c);
    lemma_occurrences_join(t3, " (visits "@, c);
    lemma_occurrences_join(t4, decimal(tree.edge(i).count as int), c);
    lemma_occurrences_join(t5, " / total "@, c);
    lemma_occurrences_join(t6, decimal(tree.total_count as int), c);
    lemma_occurrences_join(t7, ") uct "@, c);
    lemma_occurrences_join(t8, written(number, uct, 4), c);
    lemma_occurrences_join(t9, "]"@, c);
}

proof fn lemma_played_pieces<
    S: Fn(usize, usize) -> String,
    E: Fn(Single, Single, i64, i64) -> Single,
    N: Fn(Single, usize) -> String,
>(tree: Tree, i: int, coordinate: S, explore: E, number: N, c: char)
    requires
        c == ';' || c == ':',
        is_free(coordinate, number, c),
    ensures
        occurrences(tree.played(i, coordinate, explore, number), c) == if c == ';' {
            1int
        } else {
            0
        },
{
    lemma_pieces(c);
    lemma_remark_pieces(tree, i, coordinate, explore, number, c);
    let at = if i == PASS {
        "tt"@
    } else {
        point(coordinate, i)
    };
    let t0 = "(;"@;
    let t1 = t0 + player(tree.color);
    let t2 = t1 + "["@;
    let t3 = t2 + at;
    let t4 = t3 + "]"@;
    lemma_occurrences_join(t0, player(tree.color), c);
    lemma_occurrences_join(t1, "["@, c);
    lemma_occurrences_join(t2, at, c);
    lemma_occurrences_join(t3, "]"@, c);
    lemma_occurrences_join(t4, tree.remark(i, explore, number), c);
}

proof fn lemma_label_pieces<S: Fn(usize, usize) -> String, N: Fn(Single, usize) -> String>(
    tree: Tree,
    n: nat,
    coordinate: S,
    number: N,
    c: char,
)
    requires
        c == ';' || c == ':',
        is_free(coordinate, number, c),
    ensures
        occurrences(tree.labels(coordinate, n), c) == if c == ':' {
            tree.labelled(n)
        } else {
            0
        },
    decreases n,
{
    if n > 0 {
        lemma_pieces(c);
        lemma_label_pieces(tree, (n - 1) as nat, coordinate, number, c);
        lemma_decimal_none(n as int, c);
        let i = tree.by_visits()[n - 1] as int;
        let t0 = tree.labels(coordinate, (n - 1) as nat);
        let t1 = t0 + "LB["@;
        let t2 = t1 + point(coordinate, i);
        let t3 = t2 + ":"@;
        let t4 = t3 + decimal(n as int);
        lemma_occurrences_join(t0, "LB["@, c);
        lemma_occurrences_join(t1, point(coordinate, i), c);
        lemma_occurrences_join(t2, ":"@, c);
        lemma_occurrences_join(t3, decimal(n as int), c);
        lemma_occurrences_join(t4, "]"@, c);
    }
}

proof fn lemma_variations_pieces<
    S: Fn(usize, usize) -> String,
    E: Fn(Single, Single, i64, i64) -> Single,
    N: Fn(Single, usize) -> String,
>(
    tree: Tree,
    moves: Seq<usize>,
    meta: bool,
    coordinate: S,
    explore: E,
    number: N,
    c: char,
)
    requires
        c == ';' || c == ':',
        is_free(coordinate, number, c),
    ensures
        occurrences(tree.variations(moves, meta, coordinate, explore, number), c) == if c == ';' {
            tree.examined_below(moves)
        } else if meta {
            tree.labels_below(moves)
        } else {
            0
        },
    decreases tree, 0nat, moves.len(),
{
    if moves.len() > 0 {
        let init = moves.drop_last();
        let i = moves.last() as int;
        lemma_variations_pieces(tree, init, meta, coordinate, explore, number, c);
        if tree.edge(i).count != 0 {
            lemma_pieces(c);
            lemma_played_pieces(tree, i, coordinate, explore, number, c);
            let below = match tree.edge(i).child {
                Some(child) => {
                    lemma_sgf_pieces(child, meta, coordinate, explore, number, c);
                    child.sgf(meta, coordinate, explore, number)
                },
                None => Seq::empty(),
            };
            let t0 = tree.variations(init, meta, coordinate, explore, number);
            let t1 = t0 + tree.played(i, coordinate, explore, number);
            let t2 = t1 + below;
            lemma_occurrences_join(t0, tree.played(i, coordinate, explore, number), c);
            lemma_occurrences_join(t1, below, c);
            lemma_occurrences_join(t2, ")"@, c);
        }
    }
}

proof fn lemma_sgf_pieces<
    S: Fn(usize, usize) -> String,
    E: Fn(Single, Single, i64, i64) -> Single,
    N: Fn(Single, usize) -> String,
>(tree: Tree, meta: bool, coordinate: S, explore: E, number: N, c: char)
    requires
        c == ';' || c == ':',
        is_free(coordinate, number, c),
    ensures
        occurrences(tree.sgf(meta, coordinate, explore, number), c) == if c == ';' {
            tree.examined()
        } else if meta {
            tree.all_labels()
        } else {
            0
        },
    decreases tree, 1nat, 0nat,
{
    let labels = if meta {
        tree.labels(coordinate, LABELS as nat)
    } else {
        Seq::empty()
    };
    lemma_label_pieces(tree, LABELS as nat, coordinate, number, c);
    lemma_variations_pieces(
        tree,
        tree.by_visits(),
        meta,
        coordinate,
        explore,
        number,
        c,
    );
    lemma_ranked_examined(tree, MOVES as nat);
    lemma_occurrences_join(
        labels,
        tree.variations(tree.by_visits(), meta, coordinate, explore, number),
        c,
    );
}

/// The record has one move for each examined position: one for each visited move of each node,
/// whichever player's, and no more. With the meta data it has a label for each of the ten most
/// visited moves of each node that was visited and is no pass, and without it none.
pub proof fn law_record_count<
    S: Fn(usize, usize) -> String,
    E: Fn(Single, Single, i64, i64) -> Single,
    N: Fn(Single, usize) -> String,
>(tree: Tree, meta: bool, coordinate: S, explore: E, number: N)
    ensures
        is_free(coordinate, number, ';') ==> occurrences(
            tree.sgf(meta, coordinate, explore, number),
            ';',
        ) == tree.examined(),
        is_free(coordinate, number, ':') ==> occurrences(
            tree.sgf(meta, coordinate, explore, number),
            ':',
        ) == if meta {
            tree.all_labels()
        } else {
            0
        },
{
    if is_free(coordinate, number, ';') {
        lemma_sgf_pieces(tree, meta, coordinate, explore, number, ';');
    }
    if is_free(coordinate, number, ':') {
        lemma_sgf_pieces(tree, meta, coordinate, explore, number, ':');
    }
}

/// With the meta data, each of the ten most visited moves that was visited, and is no pass, is
/// labelled with its rank, at its point, and before the record of any move.
pub proof fn law_record_label<
    S: Fn(usize, usize) -> String,
    E: Fn(Single, Single, i64, i64) -> Single,
    N: Fn(Single, usize) -> String,
>(tree: Tree, rank: int, coordinate: S, explore: E, number: N)
    requires
        1 <= rank <= 10,
        tree.by_visits()[rank - 1] != 361,
        tree.edge(tree.by_visits()[rank - 1] as int).count > 0,
    ensures
        ({
            let i = tree.by_visits()[rank - 1] as int;
            let label = "LB["@ + named(coordinate, (i % 19) as usize, (i / 19) as usize) + ":"@
                + decimal(rank) + "]"@;
            &&& occurs(label, tree.labels(coordinate, 10))
            &&& tree.sgf(true, coordinate, explore, number) == tree.labels(coordinate, 10)
                + tree.variations(tree.by_visits(), true, coordinate, explore, number)
        }),
{
    lemma_label(tree, rank, 10, coordinate);
}

proof fn lemma_label<S: Fn(usize, usize) -> String>(tree: Tree, rank: int, n: nat, coordinate: S)
    requires
        1 <= rank <= n,
        tree.by_visits()[rank - 1] != PASS,
        tree.edge(tree.by_visits()[rank - 1] as int).count > 0,
    ensures
        ({
            let i = tree.by_visits()[rank - 1] as int;
            let label = "LB["@ + named(coordinate, (i % 19) as usize, (i / 19) as usize) + ":"@
                + decimal(rank) + "]"@;
            occurs(label, tree.labels(coordinate, n))
        }),
    decreases n,
{
    let i = tree.by_visits()[rank - 1] as int;
    let label = "LB["@ + named(coordinate, (i % 19) as usize, (i / 19) as usize) + ":"@ + decimal(
        rank,
    ) + "]"@;
    let all = tree.labels(coordinate, n);
    let before = tree.labels(coordinate, (n - 1) as nat);
    if rank == n {
        assert(all =~= before + label + Seq::empty());
        assert(occurs(label, all));
    } else {
        lemma_label(tree, rank, (n - 1) as nat, coordinate);
        let (a, b) = choose|a: Seq<char>, b: Seq<char>| before == #[trigger] (a + label + b);
        let j = tree.by_visits()[n - 1] as int;
        let more = if j != PASS && tree.edge(j).count > 0 {
            "LB["@ + point(coordinate, j) + ":"@ + decimal(n as int) + "]"@
        } else {
            Seq::empty()
        };
        assert(all =~= before + more);
        assert(all =~= a + label + (b + more));
        assert(occurs(label, all));
    }
}

/// The stones of the first points and of one more: a stone on the point is set up with its
/// player and coordinates, and an empty point is left out.
pub proof fn law_stones<S: Fn(usize, usize) -> String>(
    position: Position,
    coordinate: S,
    a: nat,
    b: nat,
)
    requires
        a <= b,
    ensures
        position.stones(coordinate, 0) == Seq::<char>::empty(),
        forall|p: int| #![trigger position.cells@[p]]
            a <= p < b ==> match position.cells@[p] {
                Some(color) => occurs(
                    (if color == Color::Black {
                        "AB["@
                    } else {
                        "AW["@
                    }) + named(coordinate, (p % 19) as usize, (p / 19) as usize) + "]"@,
                    position.stones(coordinate, b),
                ),
                None => position.stones(coordinate, (p + 1) as nat) == position.stones(
                    coordinate,
                    p as nat,
                ),
            },
        exists|rest: Seq<char>|
            position.stones(coordinate, b) == #[trigger] (position.stones(coordinate, a) + rest),
    decreases b,
{
    let all = position.stones(coordinate, b);
    if a == b {
        assert(all =~= all + Seq::empty());
    } else {
        let m = (b - 1) as nat;
        law_stones(position, coordinate, a, m);
        let before = position.stones(coordinate, m);
        let first = position.stones(coordinate, a);
        let rest = choose|rest: Seq<char>| before == #[trigger] (first + rest);
        let stone = match position.cells@[m as int] {
            None => Seq::empty(),
            Some(Color::Black) => "AB["@ + point(coordinate, m as int) + "]"@,
            Some(Color::White) => "AW["@ + point(coordinate, m as int) + "]"@,
        };
        assert(all =~= before + stone);
        assert(all =~= first + (rest + stone));
        assert forall|p: int| #![trigger position.cells@[p]]
            a <= p < b implies match position.cells@[p] {
            Some(color) => occurs(
                (if color == Color::Black {
                    "AB["@
                } else {
                    "AW["@
                }) + named(coordinate, (p % 19) as usize, (p / 19) as usize) + "]"@,
                all,
            ),
            None => position.stones(coordinate, (p + 1) as nat) == position.stones(
                coordinate,
                p as nat,
            ),
        } by {
            if let Some(color) = position.cells@[p] {
                let text = (if color == Color::Black {
                    "AB["@
                } else {
                    "AW["@
                }) + named(coordinate, (p % 19) as usize, (p / 19) as usize) + "]"@;
                if p < m {
                    assert(occurs(text, before));
                    let (x, y) = choose|x: Seq<char>, y: Seq<char>|
                        before == #[trigger] (x + text + y);
                    assert(all =~= x + text + (y + stone));
                    assert(occurs(text, all));
                } else {
                    assert(all =~= before + text + Seq::empty());
                    assert(occurs(text, all));
                }
            }
        }
    }
}

/// A point adds its stone to those of the points before it, and nothing else.
pub proof fn law_stone<S: Fn(usize, usize) -> String>(position: Position, coordinate: S, p: nat)
    ensures
        position.stones(coordinate, p + 1) == position.stones(coordinate, p) + (
        match position.cells@[p as int] {
            Some(color) => (if color == Color::Black {
                "AB["@
            } else {
                "AW["@
            }) + named(coordinate, (p % 19) as usize, (p / 19) as usize) + "]"@,
            None => Seq::empty(),
        }),
{
    assert(position.stones(coordinate, p + 1) =~= position.stones(coordinate, p) + (
    match position.cells@[p as int] {
        Some(color) => (if color == Color::Black {
            "AB["@
        } else {
            "AW["@
        }) + named(coordinate, (p % 19) as usize, (p / 19) as usize) + "]"@,
        None => Seq::empty(),
    }));
}

/// With the meta data a record starts with the game, the rules, the komi and the player to
/// move, goes on with the stones and the search tree, and is closed. Without it there is the
/// search tree alone.
pub proof fn law_record_text<
    'a,
    S: Fn(usize, usize) -> String,
    E: Fn(Single, Single, i64, i64) -> Single,
    N: Fn(Single, usize) -> String,
>(record: ToSgf<'a, S>, explore: E, number: N)
    ensures
        !record.meta ==> record.text(explore, number) == record.root.view().sgf(
            false,
            record.coordinate,
            explore,
            number,
        ),
        record.meta ==> record.text(explore, number) == "(;GM[1]FF[4]SZ[19]RU[Chinese]KM["@
            + written(number, record.starting_point.komi, 1) + "]PL["@ + (
        if record.root.color == Color::Black {
            "B"@
        } else {
            "W"@
        }) + "]"@ + record.starting_point.stones(record.coordinate, 361)
            + record.root.view().sgf(true, record.coordinate, explore, number) + ")"@,
{
}

} // verus!
