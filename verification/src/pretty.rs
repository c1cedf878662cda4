use crate::arithmetic::{accumulated, is_accumulate, is_mean, mean_of};
use crate::children::ChildrenNonZeroIter;
use crate::model::{lemma_visited_from, Tree, MOVES, PASS};
use crate::node::Node;
use crate::notation::{is_percent, percentage};
use crate::rank::{rank, ranked};
use crate::single::Single;
use crate::text::{align, aligned, decimal, decimal_of, joined};
use crate::vertex::{x_of, x_spec, y_of, y_spec};
use vstd::prelude::*;
use vstd::string::*;

verus! {

/// The number of moves that are listed, unless all are asked for.
pub const LISTED: usize = 10;

/// The letter of a column, where `i` is not one of them.
pub open spec fn letter(x: int) -> Seq<char> {
    if x == 0 {
        "a"@
    } else if x == 1 {
        "b"@
    } else if x == 2 {
        "c"@
    } else if x == 3 {
        "d"@
    } else if x == 4 {
        "e"@
    } else if x == 5 {
        "f"@
    } else if x == 6 {
        "g"@
    } else if x == 7 {
        "h"@
    } else if x == 8 {
        "j"@
    } else if x == 9 {
        "k"@
    } else if x == 10 {
        "l"@
    } else if x == 11 {
        "m"@
    } else if x == 12 {
        "n"@
    } else if x == 13 {
        "o"@
    } else if x == 14 {
        "p"@
    } else if x == 15 {
        "q"@
    } else if x == 16 {
        "r"@
    } else if x == 17 {
        "s"@
    } else {
        "t"@
    }
}

/// Returns the letter of a column.
fn letter_of(x: u8) -> (r: &'static str)
    ensures
        r@ == letter(x as int),
{
    match x {
        0 => "a",
        1 => "b",
        2 => "c",
        3 => "d",
        4 => "e",
        5 => "f",
        6 => "g",
        7 => "h",
        8 => "j",
        9 => "k",
        10 => "l",
        11 => "m",
        12 => "n",
        13 => "o",
        14 => "p",
        15 => "q",
        16 => "r",
        17 => "s",
        _ => "t",
    }
}

/// The name of a move: the letter of its column and the number of its row, or that it is a
/// pass.
pub open spec fn vertex(i: int) -> Seq<char> {
    if i == PASS {
        "pass"@
    } else {
        letter(x_spec(i)) + decimal(y_spec(i) + 1)
    }
}

/// A move that is to be written for a human.
pub struct PrettyVertex {
    pub inner: usize,
}

impl PrettyVertex {
    /// Returns the name of the move.
    pub fn render(&self) -> (r: String)
        requires
            self.inner < MOVES,
        ensures
            r@ == vertex(self.inner as int),
    {
        let mut out: String = String::new();
        if self.inner == PASS {
            out.append("pass");
        } else {
            out.append(letter_of(x_of(self.inner)));
            let row: String = decimal_of(y_of(self.inner) as i32 + 1);
            out.append(row.as_str());
        }
        assert(out@ =~= vertex(self.inner as int));
        out
    }
}

impl Tree {
    /// The moves on the way down the tree along the most visited ones.
    pub open spec fn greedy_path(self) -> Seq<usize>
        decreases self,
    {
        let i = self.kids.busiest();
        if self.edge(i).count == 0 {
            Seq::empty()
        } else {
            match self.edge(i).child {
                Some(child) => seq![i as usize] + child.greedy_path(),
                None => seq![i as usize],
            }
        }
    }
}

/// Iterator that traverses the most likely path down a search tree.
pub struct GreedyPath<'a> {
    pub current: &'a Node,
}

impl<'a> GreedyPath<'a> {
    /// Returns the most visited move, and moves on to the node below it, unless no move was
    /// visited.
    pub fn next(&mut self) -> (r: Option<usize>)
        requires
            old(self).current.wf(),
        ensures
            final(self).current.wf(),
            match r {
                Some(i) => {
                    let tree = old(self).current.view();
                    &&& i < MOVES
                    &&& i == tree.kids.busiest()
                    &&& tree.edge(i as int).count > 0
                    &&& tree.edge(i as int).child == Some(final(self).current.view())
                    &&& tree.greedy_path() == seq![i] + final(self).current.view().greedy_path()
                },
                None => {
                    &&& old(self).current.view().greedy_path() == Seq::<usize>::empty()
                    &&& final(self).current == old(self).current
                },
            },
    {
        let ghost tree = self.current.view();
        let max_i: usize = self.current.children.argmax_count();
        assert(tree.edge(max_i as int).wf());
        if self.current.count_of(max_i) == 0 {
            None
        } else {
            match self.current.node_of(max_i) {
                Some(node) => {
                    self.current = node;
                    Some(max_i)
                },
                None => None,
            }
        }
    }
}

/// The names of the given moves.
pub open spec fn vertices(moves: Seq<usize>) -> Seq<Seq<char>> {
    Seq::new(moves.len(), |k: int| vertex(moves[k] as int))
}

/// A list of names with one more.
proof fn lemma_joined(moves: Seq<usize>, i: usize)
    ensures
        joined(vertices(moves.push(i))) == if moves.len() == 0 {
            vertex(i as int)
        } else {
            joined(vertices(moves)) + " "@ + vertex(i as int)
        },
{
    let all = vertices(moves.push(i));
    assert(all.drop_last() =~= vertices(moves));
    assert(all.last() == vertex(i as int));
}

/// Returns the names of the moves on the way down the given tree along the most visited ones.
pub fn likely_path(root: &Node) -> (r: String)
    requires
        root.wf(),
    ensures
        r@ == joined(vertices(root.view().greedy_path())),
{
    let mut path: GreedyPath = GreedyPath { current: root };
    let mut out: String = String::new();
    let mut first: bool = true;
    let ghost whole = root.view().greedy_path();
    let ghost mut seen: Seq<usize> = Seq::empty();
    assert(whole =~= seen + path.current.view().greedy_path());
    assert(vertices(seen) =~= Seq::empty());
    loop
        invariant_except_break
            path.current.wf(),
            whole == seen + path.current.view().greedy_path(),
            out@ == joined(vertices(seen)),
            first == (seen.len() == 0),
        ensures
            out@ == joined(vertices(whole)),
        decreases path.current.view(),
    {
        let i: usize = match path.next() {
            Some(i) => i,
            None => {
                assert(whole =~= seen);
                break;
            },
        };
        proof {
            lemma_joined(seen, i);
            assert(whole =~= seen.push(i) + path.current.view().greedy_path());
        }
        if !first {
            out.append(" ");
        }
        first = false;
        let name: String = PrettyVertex { inner: i }.render();
        out.append(name.as_str());
        proof {
            seen = seen.push(i);
            assert(out@ =~= joined(vertices(seen)));
        }
    }
    out
}

impl Tree {
    /// The sum of the values of the moves below `n`, each weighted by its number of visits.
    pub open spec fn total_value<F: Fn(Single, i32, Single) -> Single>(
        self,
        accumulate: F,
        n: nat,
    ) -> Single
        decreases n,
    {
        if n == 0 {
            Single::zero_spec()
        } else {
            accumulated(
                accumulate,
                self.total_value(accumulate, (n - 1) as nat),
                self.edge(n - 1).count,
                self.edge(n - 1).value,
            )
        }
    }

    /// A summary of the whole tree: its size, how likely it is to win, and the most likely
    /// path.
    pub open spec fn summary<
        F: Fn(Single, i32, Single) -> Single,
        M: Fn(Single, i32) -> Single,
        P: Fn(Single, usize, usize) -> String,
    >(self, accumulate: F, mean: M, percent: P) -> Seq<char> {
        let win = mean_of(mean, self.total_value(accumulate, MOVES as nat), self.total_count);
        "Nodes: "@ + decimal(self.total_count as int) + ", Win: "@ + percentage(percent, win, 0, 1)
            + "%, PV: "@ + joined(vertices(self.greedy_path())) + "\n"@
    }

    /// A summary of the given move: its name, the size of the tree below it, its value, its
    /// prior, and the most likely path that starts with it.
    pub open spec fn line<P: Fn(Single, usize, usize) -> String>(self, i: int, percent: P) -> Seq<
        char,
    > {
        let child = self.edge(i).child->0;
        aligned(vertex(i), 5) + " -> "@ + aligned(decimal(child.total_count as int), 7) + " (W: "@
            + percentage(percent, self.edge(i).value, 5, 2) + "%) (N: "@ + percentage(
            percent,
            self.prior[i],
            5,
            2,
        ) + "%) PV: "@ + vertex(i) + " "@ + joined(vertices(child.greedy_path())) + "\n"@
    }

    /// The summaries of the given moves.
    pub open spec fn lines<P: Fn(Single, usize, usize) -> String>(
        self,
        moves: Seq<usize>,
        percent: P,
    ) -> Seq<char>
        decreases moves.len(),
    {
        if moves.len() == 0 {
            Seq::empty()
        } else {
            self.lines(moves.drop_last(), percent) + self.line(moves.last() as int, percent)
        }
    }

    /// The moves to list: those that were visited, by decreasing number of visits, and not
    /// more than a few of them unless all are asked for.
    pub open spec fn listed(self, verbose: bool) -> Seq<usize> {
        let all = ranked(self.counts(), self.kids.visited_from(0));
        if verbose || all.len() <= LISTED {
            all
        } else {
            all.take(LISTED as int)
        }
    }
}

/// A search tree that is to be written for a human.
pub struct ToPretty<'a> {
    pub root: &'a Node,
}

impl<'a> ToPretty<'a> {
    /// Returns the moves to list.
    fn listed(&self, verbose: bool) -> (r: Vec<usize>)
        requires
            self.root.wf(),
        ensures
            r@ == self.root.view().listed(verbose),
            forall|k: int|
                0 <= k < r@.len() ==> {
                    &&& (#[trigger] r@[k]) < MOVES
                    &&& self.root.view().edge(r@[k] as int).count > 0
                },
    {
        let ghost tree = self.root.view();
        let ghost all = tree.kids.visited_from(0);
        let mut visited: Vec<usize> = Vec::new();
        let mut iter: ChildrenNonZeroIter = self.root.children.nonzero();
        assert(all =~= visited@ + iter.remaining());
        loop
            invariant_except_break
                iter.wf(),
                all == visited@ + iter.remaining(),
            ensures
                visited@ == all,
            decreases iter.remaining().len(),
        {
            match iter.next() {
                Some(i) => {
                    visited.push(i);
                    assert(all =~= visited@ + iter.remaining());
                },
                None => {
                    assert(all =~= visited@);
                    break;
                },
            }
        }
        proof {
            lemma_visited_from(tree.kids, 0, tree.initial_value);
        }
        let counts: Vec<i32> = self.root.counts();
        let mut moves: Vec<usize> = rank(&counts, &visited);
        assert forall|k: int| 0 <= k < moves@.len() implies (#[trigger] moves@[k]) < MOVES
            && tree.edge(moves@[k] as int).count > 0 by {
            assert(visited@.contains(moves@[k]));
        }
        if !verbose && moves.len() > LISTED {
            moves.truncate(LISTED);
        }
        moves
    }

    /// Returns the sum of the values of the moves, each weighted by its number of visits.
    fn total_value<F: Fn(Single, i32, Single) -> Single>(&self, accumulate: &F) -> (r: Single)
        requires
            self.root.wf(),
            is_accumulate(*accumulate),
        ensures
            r == self.root.view().total_value(*accumulate, MOVES as nat),
    {
        let mut total: Single = Single::zero();
        let mut i: usize = 0;
        while i < MOVES
            invariant
                i <= MOVES,
                self.root.wf(),
                is_accumulate(*accumulate),
                total == self.root.view().total_value(*accumulate, i as nat),
            decreases MOVES - i,
        {
            total = accumulate(total, self.root.count_of(i), self.root.value_of(i));
            i += 1;
        }
        total
    }

    /// Returns a summary of the whole tree.
    fn summary<
        F: Fn(Single, i32, Single) -> Single,
        M: Fn(Single, i32) -> Single,
        P: Fn(Single, usize, usize) -> String,
    >(&self, accumulate: &F, mean: &M, percent: &P) -> (r: String)
        requires
            self.root.wf(),
            is_accumulate(*accumulate),
            is_mean(*mean),
            is_percent(*percent),
        ensures
            r@ == self.root.view().summary(*accumulate, *mean, *percent),
    {
        let norm_value: Single = mean(self.total_value(accumulate), self.root.total_count);
        let mut out: String = String::new();
        out.append("Nodes: ");
        let total: String = decimal_of(self.root.total_count);
        out.append(total.as_str());
        out.append(", Win: ");
        let win: String = percent(norm_value, 0, 1);
        out.append(win.as_str());
        out.append("%, PV: ");
        let path: String = likely_path(self.root);
        out.append(path.as_str());
        out.append("\n");
        assert(out@ =~= self.root.view().summary(*accumulate, *mean, *percent));
        out
    }

    /// Returns a summary of the given move.
    fn line<P: Fn(Single, usize, usize) -> String>(&self, i: usize, percent: &P) -> (r: String)
        requires
            self.root.wf(),
            is_percent(*percent),
            i < MOVES,
            self.root.view().edge(i as int).count > 0,
        ensures
            r@ == self.root.view().line(i as int, *percent),
    {
        let mut out: String = String::new();
        assert(self.root.view().edge(i as int).wf());
        if let Some(child) = self.root.node_of(i) {
            let name: String = PrettyVertex { inner: i }.render();
            let column: String = align(name.as_str(), 5);
            out.append(column.as_str());
            out.append(" -> ");
            let size: String = decimal_of(child.total_count);
            let size: String = align(size.as_str(), 7);
            out.append(size.as_str());
            out.append(" (W: ");
            let value: String = percent(self.root.value_of(i), 5, 2);
            out.append(value.as_str());
            out.append("%) (N: ");
            let prior: String = percent(self.root.prior[i], 5, 2);
            out.append(prior.as_str());
            out.append("%) PV: ");
            out.append(name.as_str());
            out.append(" ");
            let path: String = likely_path(child);
            out.append(path.as_str());
            out.append("\n");
        }
        assert(out@ =~= self.root.view().line(i as int, *percent));
        out
    }

    /// Returns a summary of the tree, and one of each move that was considered, most visited
    /// moves first.
    ///
    /// # Arguments
    ///
    /// * `verbose` - whether to list all moves that were visited, and not only ten of them
    /// * `accumulate` - returns the given sum with one more value, weighted by the given
    ///   number of visits
    /// * `mean` - returns the given sum divided by the given number of visits
    /// * `percent` - returns a number as a percentage, of the given least width and with so
    ///   many decimals
    ///
    pub fn render<
        F: Fn(Single, i32, Single) -> Single,
        M: Fn(Single, i32) -> Single,
        P: Fn(Single, usize, usize) -> String,
    >(&self, verbose: bool, accumulate: &F, mean: &M, percent: &P) -> (r: String)
        requires
            self.root.wf(),
            is_accumulate(*accumulate),
            is_mean(*mean),
            is_percent(*percent),
        ensures
            r@ == self.root.view().summary(*accumulate, *mean, *percent) + self.root.view().lines(
                self.root.view().listed(verbose),
                *percent,
            ),
    {
        let ghost tree = self.root.view();
        let moves: Vec<usize> = self.listed(verbose);
        let mut out: String = self.summary(accumulate, mean, percent);
        let ghost head = out@;
        let mut k: usize = 0;
        assert(moves@.take(0) =~= Seq::empty());
        assert(out@ =~= head + tree.lines(moves@.take(0), *percent));
        while k < moves.len()
            invariant
                k <= moves@.len(),
                self.root.wf(),
                tree == self.root.view(),
                is_percent(*percent),
                forall|j: int|
                    0 <= j < moves@.len() ==> {
                        &&& (#[trigger] moves@[j]) < MOVES
                        &&& tree.edge(moves@[j] as int).count > 0
                    },
                out@ == head + tree.lines(moves@.take(k as int), *percent),
            decreases moves@.len() - k,
        {
            let i: usize = moves[k];
            let line: String = self.line(i, percent);
            assert(moves@.take(k + 1).drop_last() =~= moves@.take(k as int));
            out.append(line.as_str());
            k += 1;
            assert(out@ =~= head + tree.lines(moves@.take(k as int), *percent));
        }
        assert(moves@.take(k as int) =~= moves@);
        out
    }
}

/// Returns a marker that contains all the examined positions of the given search tree and can
/// be pretty-printed to something easily examined by a human.
///
/// # Arguments
///
/// * `root` - the search tree
///
pub fn to_pretty<'a>(root: &'a Node) -> (r: ToPretty<'a>)
    ensures
        r.root == root,
{
    ToPretty { root }
}

} // verus!
