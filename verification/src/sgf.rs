use crate::arithmetic::{explored, is_explore};
use crate::color::Color;
use crate::model::{Tree, MOVES, PASS};
use crate::node::Node;
use crate::notation::{is_coordinate, is_number, named, written};
use crate::percentile::upto;
use crate::rank::{rank, ranked};
use crate::score::PUCT;
use crate::single::Single;
use crate::text::{decimal, decimal_of};
use crate::vertex::{x_of, x_spec, y_of, y_spec};
use vstd::prelude::*;
use vstd::string::*;

verus! {

/// The number of moves that are given a label.
pub const LABELS: usize = 10;

/// The letter for a player.
pub open spec fn player(color: Color) -> Seq<char> {
    match color {
        Color::Black => "B"@,
        Color::White => "W"@,
    }
}

/// Returns the letter for a player.
fn player_of(color: Color) -> (r: &'static str)
    ensures
        r@ == player(color),
{
    match color {
        Color::Black => "B",
        Color::White => "W",
    }
}

/// The coordinates of the point of a move.
pub open spec fn point<S: Fn(usize, usize) -> String>(coordinate: S, i: int) -> Seq<char> {
    named(coordinate, x_spec(i) as usize, y_spec(i) as usize)
}

impl Tree {
    /// The moves by decreasing number of visits, those with the same number of visits in
    /// ascending order.
    pub open spec fn by_visits(self) -> Seq<usize> {
        ranked(self.counts(), upto(MOVES as nat))
    }

    /// The labels of the first `n` of the moves with the most visits: their rank, unless the
    /// move is a pass, or was not visited.
    pub open spec fn labels<S: Fn(usize, usize) -> String>(self, coordinate: S, n: nat) -> Seq<char>
        decreases n,
    {
        if n == 0 {
            Seq::empty()
        } else {
            let before = self.labels(coordinate, (n - 1) as nat);
            let i = self.by_visits()[n - 1] as int;
            if i != PASS && self.edge(i).count > 0 {
                before + "LB["@ + point(coordinate, i) + ":"@ + decimal(n as int) + "]"@
            } else {
                before
            }
        }
    }

    /// What is known about the given move.
    pub open spec fn remark<
        E: Fn(Single, Single, i64, i64) -> Single,
        N: Fn(Single, usize) -> String,
    >(self, i: int, explore: E, number: N) -> Seq<char> {
        let uct = explored(
            explore,
            self.edge(i).value,
            self.prior[i],
            self.visits(),
            self.edge(i).visits() as i64,
        );
        "C[prior "@ + written(number, self.prior[i], 4) + " value "@ + written(
            number,
            self.edge(i).value,
            4,
        ) + " (visits "@ + decimal(self.edge(i).count as int) + " / total "@ + decimal(
            self.total_count as int,
        ) + ") uct "@ + written(number, uct, 4) + "]"@
    }

    /// The record of the given move, without what was explored below it.
    pub open spec fn played<
        S: Fn(usize, usize) -> String,
        E: Fn(Single, Single, i64, i64) -> Single,
        N: Fn(Single, usize) -> String,
    >(self, i: int, coordinate: S, explore: E, number: N) -> Seq<char> {
        let at = if i == PASS {
            "tt"@
        } else {
            point(coordinate, i)
        };
        "(;"@ + player(self.color) + "["@ + at + "]"@ + self.remark(i, explore, number)
    }

    /// The records of those of the given moves that were visited.
    pub open spec fn variations<
        S: Fn(usize, usize) -> String,
        E: Fn(Single, Single, i64, i64) -> Single,
        N: Fn(Single, usize) -> String,
    >(
        self,
        moves: Seq<usize>,
        meta: bool,
        coordinate: S,
        explore: E,
        number: N,
    ) -> Seq<char>
        decreases self, 0nat, moves.len(),
    {
        if moves.len() == 0 {
            Seq::empty()
        } else {
            let before = self.variations(moves.drop_last(), meta, coordinate, explore, number);
            let i = moves.last() as int;
            if self.edge(i).count == 0 {
                before
            } else {
                let below = match self.edge(i).child {
                    Some(child) => child.sgf(meta, coordinate, explore, number),
                    None => Seq::empty(),
                };
                before + self.played(i, coordinate, explore, number) + below + ")"@
            }
        }
    }

    /// The record of what was explored, most visited moves first, with labels for them if
    /// asked for.
    pub open spec fn sgf<
        S: Fn(usize, usize) -> String,
        E: Fn(Single, Single, i64, i64) -> Single,
        N: Fn(Single, usize) -> String,
    >(self, meta: bool, coordinate: S, explore: E, number: N) -> Seq<char>
        decreases self, 1nat, 0nat,
    {
        let labels = if meta {
            self.labels(coordinate, LABELS as nat)
        } else {
            Seq::empty()
        };
        labels + self.variations(self.by_visits(), meta, coordinate, explore, number)
    }
}

/// What is appended to a text piece by piece is appended as a whole.
proof fn lemma_append(a: Seq<char>, b: Seq<char>, c: Seq<char>, d: Seq<char>, e: Seq<char>)
    ensures
        a + b + c + d + e == a + (b + c + d + e),
{
    assert(a + b + c + d + e =~= a + (b + c + d + e));
}

impl Node {
    /// Returns the moves by decreasing number of visits.
    fn by_visits(&self) -> (r: Vec<usize>)
        requires
            self.children.wf(),
        ensures
            r@ == self.view().by_visits(),
            r@.len() == MOVES,
            forall|k: int| 0 <= k < r@.len() ==> #[trigger] r@[k] < MOVES,
    {
        let counts: Vec<i32> = self.counts();
        let mut moves: Vec<usize> = Vec::new();
        let mut i: usize = 0;
        while i < MOVES
            invariant
                i <= MOVES,
                moves@ == upto(i as nat),
            decreases MOVES - i,
        {
            moves.push(i);
            i += 1;
            assert(moves@ =~= upto(i as nat));
        }
        let order: Vec<usize> = rank(&counts, &moves);
        assert forall|k: int| 0 <= k < order@.len() implies #[trigger] order@[k] < MOVES by {
            assert(moves@.contains(order@[k]));
        }
        order
    }

    /// Writes the labels of the moves with the most visits.
    fn write_labels<S: Fn(usize, usize) -> String>(
        &self,
        order: &Vec<usize>,
        coordinate: &S,
        out: &mut String,
    )
        requires
            self.children.wf(),
            is_coordinate(*coordinate),
            order@ == self.view().by_visits(),
            order@.len() == MOVES,
            forall|k: int| 0 <= k < order@.len() ==> #[trigger] order@[k] < MOVES,
        ensures
            final(out)@ == old(out)@ + self.view().labels(*coordinate, LABELS as nat),
    {
        let ghost tree = self.view();
        let ghost was = out@;
        let mut n: usize = 0;
        assert(out@ =~= was + tree.labels(*coordinate, 0));
        while n < LABELS
            invariant
                n <= LABELS,
                self.children.wf(),
                is_coordinate(*coordinate),
                tree == self.view(),
                order@ == tree.by_visits(),
                order@.len() == MOVES,
                forall|k: int| 0 <= k < order@.len() ==> #[trigger] order@[k] < MOVES,
                out@ == was + tree.labels(*coordinate, n as nat),
            decreases LABELS - n,
        {
            let i: usize = order[n];
            if i != PASS && self.count_of(i) > 0 {
                out.append("LB[");
                let at: String = coordinate(x_of(i) as usize, y_of(i) as usize);
                out.append(at.as_str());
                out.append(":");
                let label: String = decimal_of(n as i32 + 1);
                out.append(label.as_str());
                out.append("]");
            }
            n += 1;
            assert(out@ =~= was + tree.labels(*coordinate, n as nat));
        }
    }

    /// Writes what is known about the given move.
    fn write_remark<
        E: Fn(Single, Single, i64, i64) -> Single,
        N: Fn(Single, usize) -> String,
    >(&self, i: usize, uct: Single, explore: &E, number: &N, out: &mut String)
        requires
            self.children.wf(),
            is_number(*number),
            i < MOVES,
            uct == explored(
                *explore,
                self.view().edge(i as int).value,
                self.prior@[i as int],
                self.view().visits(),
                self.view().edge(i as int).visits() as i64,
            ),
        ensures
            final(out)@ == old(out)@ + self.view().remark(i as int, *explore, *number),
    {
        let ghost was = out@;
        out.append("C[prior ");
        let prior: String = number(self.prior[i], 4);
        out.append(prior.as_str());
        out.append(" value ");
        let value: String = number(self.value_of(i), 4);
        out.append(value.as_str());
        out.append(" (visits ");
        let count: String = decimal_of(self.count_of(i));
        out.append(count.as_str());
        out.append(" / total ");
        let total: String = decimal_of(self.total_count);
        out.append(total.as_str());
        out.append(") uct ");
        let bound: String = number(uct, 4);
        out.append(bound.as_str());
        out.append("]");
        assert(out@ =~= was + self.view().remark(i as int, *explore, *number));
    }

    /// Writes the record of the given move, without what was explored below it.
    fn write_played<
        S: Fn(usize, usize) -> String,
        E: Fn(Single, Single, i64, i64) -> Single,
        N: Fn(Single, usize) -> String,
    >(
        &self,
        i: usize,
        uct: Single,
        coordinate: &S,
        explore: &E,
        number: &N,
        out: &mut String,
    )
        requires
            self.children.wf(),
            is_coordinate(*coordinate),
            is_number(*number),
            i < MOVES,
            uct == explored(
                *explore,
                self.view().edge(i as int).value,
                self.prior@[i as int],
                self.view().visits(),
                self.view().edge(i as int).visits() as i64,
            ),
        ensures
            final(out)@ == old(out)@ + self.view().played(
                i as int,
                *coordinate,
                *explore,
                *number,
            ),
    {
        let ghost was = out@;
        out.append("(;");
        out.append(player_of(self.color));
        out.append("[");
        if i == PASS {
            out.append("tt");
        } else {
            let at: String = coordinate(x_of(i) as usize, y_of(i) as usize);
            out.append(at.as_str());
        }
        out.append("]");
        self.write_remark(i, uct, explore, number, out);
        assert(out@ =~= was + self.view().played(i as int, *coordinate, *explore, *number));
    }

    /// Writes a record of what was explored, most visited moves first, with labels for them
    /// if asked for. Moves that were not visited are left out.
    ///
    /// # Arguments
    ///
    /// * `out` - the text to write to
    /// * `meta` - whether to label the ten most visited moves
    /// * `coordinate` - returns the coordinates of a point
    /// * `explore` - returns the winrate of a move with its exploration bonus applied, given
    ///   the winrate, the prior, the visits of the node and the visits of the move
    /// * `number` - returns a number as text, with so many decimals
    ///
    pub fn as_sgf<
        S: Fn(usize, usize) -> String,
        E: Fn(Single, Single, i64, i64) -> Single,
        N: Fn(Single, usize) -> String,
    >(&self, out: &mut String, meta: bool, coordinate: &S, explore: &E, number: &N)
        requires
            self.repr_ok(),
            is_coordinate(*coordinate),
            is_explore(*explore),
            is_number(*number),
        ensures
            final(out)@ == old(out)@ + self.view().sgf(meta, *coordinate, *explore, *number),
        decreases self.view(),
    {
        let ghost tree = self.view();
        let ghost was = out@;
        let order: Vec<usize> = self.by_visits();
        if meta {
            self.write_labels(&order, coordinate, out);
        }
        let ghost labelled = out@;
        let mut uct: Vec<Single> = self.children.value(self.initial_value);
        PUCT::get(self, &mut uct, explore);
        let mut k: usize = 0;
        assert(order@.take(0) =~= Seq::empty());
        assert(out@ =~= labelled + tree.variations(
            order@.take(0),
            meta,
            *coordinate,
            *explore,
            *number,
        ));
        while k < order.len()
            invariant
                k <= order@.len(),
                self.repr_ok(),
                is_coordinate(*coordinate),
                is_explore(*explore),
                is_number(*number),
                tree == self.view(),
                forall|j: int| 0 <= j < order@.len() ==> #[trigger] order@[j] < MOVES,
                uct@ == tree.with_bonus(self.children.values(self.initial_value), *explore),
                out@ == labelled + tree.variations(
                    order@.take(k as int),
                    meta,
                    *coordinate,
                    *explore,
                    *number,
                ),
            decreases order@.len() - k,
        {
            let i: usize = order[k];
            let ghost so_far = out@;
            assert(order@.take(k + 1).drop_last() =~= order@.take(k as int));
            if self.count_of(i) != 0 {
                self.write_played(i, uct[i], coordinate, explore, number, out);
                let ghost played = out@;
                match self.node_of(i) {
                    Some(child) => {
                        child.as_sgf(out, meta, coordinate, explore, number);
                    },
                    None => {
                        assert(out@ =~= played + Seq::empty());
                    },
                }
                out.append(")");
                proof {
                    let below = match tree.edge(i as int).child {
                        Some(child) => child.sgf(meta, *coordinate, *explore, *number),
                        None => Seq::empty(),
                    };
                    lemma_append(
                        labelled,
                        tree.variations(
                            order@.take(k as int),
                            meta,
                            *coordinate,
                            *explore,
                            *number,
                        ),
                        tree.played(i as int, *coordinate, *explore, *number),
                        below,
                        ")"@,
                    );
                }
            }
            k += 1;
        }
        assert(order@.take(k as int) =~= order@);
        assert(out@ =~= was + tree.sgf(meta, *coordinate, *explore, *number));
    }
}

/// The stones on a board, row by row, and the komi.
pub struct Position {
    pub cells: Vec<Option<Color>>,
    pub komi: Single,
}

impl Position {
    /// There is a cell for each point.
    pub open spec fn wf(self) -> bool {
        self.cells@.len() == PASS
    }

    /// The stones of the first `n` points, row by row.
    pub open spec fn stones<S: Fn(usize, usize) -> String>(self, coordinate: S, n: nat) -> Seq<char>
        decreases n,
    {
        if n == 0 {
            Seq::empty()
        } else {
            let before = self.stones(coordinate, (n - 1) as nat);
            match self.cells@[n - 1] {
                None => before,
                Some(Color::Black) => before + "AB["@ + point(coordinate, n - 1) + "]"@,
                Some(Color::White) => before + "AW["@ + point(coordinate, n - 1) + "]"@,
            }
        }
    }

    /// Writes the stones, row by row.
    fn write_stones<S: Fn(usize, usize) -> String>(&self, coordinate: &S, out: &mut String)
        requires
            self.wf(),
            is_coordinate(*coordinate),
        ensures
            final(out)@ == old(out)@ + self.stones(*coordinate, PASS as nat),
    {
        let ghost was = out@;
        let mut n: usize = 0;
        assert(out@ =~= was + self.stones(*coordinate, 0));
        while n < PASS
            invariant
                n <= PASS,
                self.wf(),
                is_coordinate(*coordinate),
                out@ == was + self.stones(*coordinate, n as nat),
            decreases PASS - n,
        {
            if let Some(color) = self.cells[n] {
                match color {
                    Color::Black => {
                        out.append("AB[");
                    },
                    Color::White => {
                        out.append("AW[");
                    },
                }
                let at: String = coordinate(x_of(n) as usize, y_of(n) as usize);
                out.append(at.as_str());
                out.append("]");
            }
            n += 1;
            assert(out@ =~= was + self.stones(*coordinate, n as nat));
        }
    }
}

/// A search tree that is to be written as a game record.
pub struct ToSgf<'a, S: Fn(usize, usize) -> String> {
    pub coordinate: S,
    pub starting_point: &'a Position,
    pub root: &'a Node,
    pub meta: bool,
}

impl<'a, S: Fn(usize, usize) -> String> ToSgf<'a, S> {
    /// The game record: the search tree alone, or, with the meta data, the rules, the komi,
    /// the player to move and the stones on the board before it.
    pub open spec fn text<
        E: Fn(Single, Single, i64, i64) -> Single,
        N: Fn(Single, usize) -> String,
    >(self, explore: E, number: N) -> Seq<char> {
        let tree = self.root.view().sgf(self.meta, self.coordinate, explore, number);
        if self.meta {
            "(;GM[1]FF[4]SZ[19]RU[Chinese]KM["@ + written(number, self.starting_point.komi, 1)
                + "]PL["@ + player(self.root.color) + "]"@ + self.starting_point.stones(
                self.coordinate,
                PASS as nat,
            ) + tree + ")"@
        } else {
            tree
        }
    }

    /// Returns the game record.
    ///
    /// # Arguments
    ///
    /// * `explore` - returns the winrate of a move with its exploration bonus applied, given
    ///   the winrate, the prior, the visits of the node and the visits of the move
    /// * `number` - returns a number as text, with so many decimals
    ///
    pub fn render<
        E: Fn(Single, Single, i64, i64) -> Single,
        N: Fn(Single, usize) -> String,
    >(&self, explore: &E, number: &N) -> (r: String)
        requires
            self.root.repr_ok(),
            self.starting_point.wf(),
            is_coordinate(self.coordinate),
            is_explore(*explore),
            is_number(*number),
        ensures
            r@ == self.text(*explore, *number),
    {
        let mut out: String = String::new();
        if self.meta {
            out.append("(;GM[1]FF[4]SZ[19]RU[Chinese]KM[");
            let komi: String = number(self.starting_point.komi, 1);
            out.append(komi.as_str());
            out.append("]PL[");
            out.append(player_of(self.root.color));
            out.append("]");
            self.starting_point.write_stones(&self.coordinate, &mut out);
            self.root.as_sgf(&mut out, self.meta, &self.coordinate, explore, number);
            out.append(")");
        } else {
            self.root.as_sgf(&mut out, self.meta, &self.coordinate, explore, number);
        }
        assert(out@ =~= self.text(*explore, *number));
        out
    }
}

/// Returns a marker that contains all the examined positions of the given search tree and can
/// be written as an SGF file.
///
/// # Arguments
///
/// * `root` - the search tree
/// * `starting_point` - the board at the root of the tree
/// * `meta` - whether to include the SGF meta data (rules, etc.)
/// * `coordinate` - returns the coordinates of a point
///
pub fn to_sgf<'a, S: Fn(usize, usize) -> String>(
    root: &'a Node,
    starting_point: &'a Position,
    meta: bool,
    coordinate: S,
) -> (r: ToSgf<'a, S>)
    ensures
        r.root == root,
        r.starting_point == starting_point,
        r.meta == meta,
        r.coordinate == coordinate,
{
    ToSgf { coordinate, starting_point, root, meta }
}

} // verus!
