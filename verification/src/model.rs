use crate::color::Color;
use crate::single::{argmax_count_spec, Single};
use vstd::prelude::*;

verus! {

/// The number of moves: one for each of the 19 by 19 points, and the pass.
pub const MOVES: usize = 362;

/// The move that stands for a pass.
pub const PASS: usize = 361;

/// The number of elements in an array over the moves, padded to a multiple of sixteen.
pub const PADDED: usize = 368;

/// The number of edges that a sparse node holds before it becomes dense.
pub const SMALL_SIZE: usize = 8;

/// What a node knows about one of its moves.
#[verifier::ext_equal]
pub struct Edge {
    /// The number of visits.
    pub count: i32,
    /// The number of virtual visits.
    pub vcount: i16,
    /// The average value.
    pub value: Single,
    /// Whether the move is being, or has been, expanded.
    pub expanding: bool,
    /// The sub-tree below the move.
    pub child: Option<Tree>,
}

/// The edges of a node, as they are laid out.
#[verifier::ext_equal]
pub enum Kids {
    /// Pairs of a move and its edge, in the order in which the moves were first touched.
    Sparse(Seq<(int, Edge)>),
    /// One edge for each move.
    Dense(Seq<Edge>),
}

/// A search tree.
#[verifier::ext_equal]
pub struct Tree {
    pub color: Color,
    pub initial_value: Single,
    pub pass_count: i16,
    pub total_count: i32,
    pub vtotal_count: i32,
    pub prior: Seq<Single>,
    pub kids: Kids,
}

impl Edge {
    /// The edge of a move that was never touched.
    pub open spec fn blank(value: Single) -> Edge {
        Edge { count: 0, vcount: 0, value, expanding: false, child: None }
    }

    /// The number of visits, virtual ones included.
    pub open spec fn visits(self) -> int {
        self.count + self.vcount
    }

    /// No count is negative, and a move that was visited has a sub-tree.
    pub open spec fn wf(self) -> bool {
        &&& self.count >= 0
        &&& self.count > 0 ==> self.child is Some
        &&& self.child is Some ==> self.child->0.wf()
    }

    /// The value to use for the move: that of the edge, or `default` where it was never
    /// visited. A move that was removed, which has negative infinity for a value, keeps it.
    pub open spec fn shown(self, default: Single) -> Single {
        if self.count == 0 && self.value != Single::neg_infinity_spec() {
            default
        } else {
            self.value
        }
    }

    /// Whether the move is being expanded, and has no sub-tree yet.
    pub open spec fn is_pending(self) -> bool {
        self.expanding && self.child is None
    }
}

impl Kids {
    /// Whether slot `k` holds the given move.
    pub open spec fn slot_holds(self, k: int, index: int) -> bool {
        &&& self is Sparse
        &&& 0 <= k < self->Sparse_0.len()
        &&& self->Sparse_0[k].0 == index
    }

    /// The slot that holds the given move.
    pub open spec fn slot_of(self, index: int) -> int {
        choose|k: int| self.slot_holds(k, index)
    }

    /// Whether the given move has been touched.
    pub open spec fn has(self, index: int) -> bool {
        match self {
            Kids::Sparse(slots) => exists|k: int| self.slot_holds(k, index),
            Kids::Dense(edges) => 0 <= index < edges.len(),
        }
    }

    /// The edge of the given move, where an untouched move has the value `default`.
    pub open spec fn edge(self, index: int, default: Single) -> Edge {
        if self.has(index) {
            match self {
                Kids::Sparse(slots) => slots[self.slot_of(index)].1,
                Kids::Dense(edges) => edges[index],
            }
        } else {
            Edge::blank(default)
        }
    }

    /// These edges with that of the given move replaced. A sparse node that has no slot for
    /// the move, and no room for another, becomes dense, its untouched moves with the value
    /// `default`.
    pub open spec fn put(self, index: int, edge: Edge, default: Single) -> Kids {
        match self {
            Kids::Sparse(slots) => {
                if self.has(index) {
                    Kids::Sparse(slots.update(self.slot_of(index), (index, edge)))
                } else if slots.len() < SMALL_SIZE {
                    Kids::Sparse(slots.push((index, edge)))
                } else {
                    self.dense(default).put_dense(index, edge)
                }
            },
            Kids::Dense(edges) => self.put_dense(index, edge),
        }
    }

    /// Dense edges with that of the given move replaced.
    pub open spec fn put_dense(self, index: int, edge: Edge) -> Kids {
        Kids::Dense(self->Dense_0.update(index, edge))
    }

    /// The dense equivalent of these edges.
    pub open spec fn dense(self, default: Single) -> Kids {
        Kids::Dense(Seq::new(MOVES as nat, |i: int| self.edge(i, default)))
    }

    /// A dense node has an edge for each move, a sparse one a few different moves.
    pub open spec fn wf(self) -> bool {
        match self {
            Kids::Sparse(slots) => {
                &&& slots.len() <= SMALL_SIZE
                &&& forall|k: int| 0 <= k < slots.len() ==> 0 <= (#[trigger] slots[k]).0 < MOVES
                &&& forall|j: int, k: int|
                    0 <= j < k < slots.len() ==> (#[trigger] slots[j]).0 != (#[trigger] slots[k]).0
            },
            Kids::Dense(edges) => edges.len() == MOVES,
        }
    }

    /// The slots, or the edges, in the order in which they are laid out.
    pub open spec fn width(self) -> nat {
        match self {
            Kids::Sparse(slots) => slots.len(),
            Kids::Dense(edges) => edges.len(),
        }
    }

    /// The move at the given place.
    pub open spec fn move_at(self, k: int) -> int {
        match self {
            Kids::Sparse(slots) => slots[k].0,
            Kids::Dense(edges) => k,
        }
    }

    /// The edge at the given place.
    pub open spec fn edge_at(self, k: int) -> Edge {
        match self {
            Kids::Sparse(slots) => slots[k].1,
            Kids::Dense(edges) => edges[k],
        }
    }

    /// The number of visits at each place, where an unused slot of a sparse node has none.
    pub open spec fn place_counts(self) -> Seq<i32> {
        match self {
            Kids::Sparse(slots) => Seq::new(
                SMALL_SIZE as nat,
                |k: int| if k < slots.len() {
                    slots[k].1.count
                } else {
                    0
                },
            ),
            Kids::Dense(edges) => Seq::new(edges.len(), |k: int| edges[k].count),
        }
    }

    /// The first move, in the order in which they are laid out, with the largest number of
    /// visits.
    pub open spec fn busiest(self) -> int {
        let k = argmax_count_spec(self.place_counts());
        if k < self.width() {
            self.move_at(k)
        } else {
            0
        }
    }

    /// The visited moves from the given place on, in the order in which they are laid out.
    pub open spec fn visited_from(self, k: int) -> Seq<usize>
        decreases self.width() - k,
    {
        if k < 0 || k >= self.width() {
            Seq::empty()
        } else if self.edge_at(k).count > 0 {
            seq![self.move_at(k) as usize] + self.visited_from(k + 1)
        } else {
            self.visited_from(k + 1)
        }
    }
}

impl Tree {
    /// The edge of the given move.
    pub open spec fn edge(self, index: int) -> Edge {
        self.kids.edge(index, self.initial_value)
    }

    /// This tree with the edge of the given move replaced.
    pub open spec fn put(self, index: int, edge: Edge) -> Tree {
        Tree { kids: self.kids.put(index, edge, self.initial_value), ..self }
    }

    /// The number of visits of each move.
    pub open spec fn counts(self) -> Seq<i32> {
        Seq::new(MOVES as nat, |i: int| self.edge(i).count)
    }

    /// A tree of a single node.
    pub open spec fn leaf(color: Color, value: Single, prior: Seq<Single>) -> Tree {
        Tree {
            color,
            initial_value: value,
            pass_count: 0,
            total_count: 0,
            vtotal_count: 0,
            prior: padded(prior),
            kids: Kids::Sparse(Seq::empty()),
        }
    }

    /// Every node of the tree is laid out as it should be, its prior is padded, no count is
    /// negative, and each move that was visited has a sub-tree.
    pub open spec fn wf(self) -> bool
        decreases self,
    {
        &&& self.kids.wf()
        &&& is_padded(self.prior)
        &&& forall|i: int|
            {
                &&& (#[trigger] self.edge(i)).count >= 0
                &&& self.edge(i).count > 0 ==> self.edge(i).child is Some
                &&& self.edge(i).child is Some ==> self.edge(i).child->0.wf()
            }
    }
}

/// Replacing an edge keeps a tree well formed.
pub proof fn lemma_put_wf(tree: Tree, index: int, edge: Edge)
    requires
        tree.wf(),
        0 <= index < MOVES,
        edge.wf(),
    ensures
        tree.put(index, edge).wf(),
        tree.put(index, edge).edge(index) == edge,
        forall|i: int|
            i != index ==> #[trigger] tree.put(index, edge).edge(i) == tree.edge(i),
{
    lemma_put(tree.kids, index, edge, tree.initial_value);
    let next = tree.put(index, edge);
    assert forall|i: int| (#[trigger] next.edge(i)).wf() by {
        if i != index {
            assert(next.edge(i) == tree.edge(i));
        }
    }
}

/// Whether a tree is well formed does not depend on the counters of its root.
pub proof fn lemma_same_kids_wf(a: Tree, b: Tree)
    requires
        a.wf(),
        a.kids == b.kids,
        a.initial_value == b.initial_value,
        a.prior == b.prior,
    ensures
        b.wf(),
        forall|i: int| #[trigger] b.edge(i) == a.edge(i),
{
    assert forall|i: int| (#[trigger] b.edge(i)).wf() && b.edge(i) == a.edge(i) by {
        assert(b.edge(i) == a.edge(i));
        assert(a.edge(i).wf());
    }
}

/// In a well formed sparse node, the slot of a move is the one that holds it.
pub proof fn lemma_slot_of(kids: Kids, k: int, index: int)
    requires
        kids.wf(),
        kids.slot_holds(k, index),
    ensures
        kids.has(index),
        kids.slot_of(index) == k,
{
    let other = kids.slot_of(index);
    assert(kids.slot_holds(other, index));
    let slots = kids->Sparse_0;
    if other < k {
        assert(slots[other].0 != slots[k].0);
    } else if k < other {
        assert(slots[k].0 != slots[other].0);
    }
}

/// Replacing the edge of one move keeps a node well formed, and changes the edge of no other
/// move: what was put is what is found.
pub proof fn lemma_put(kids: Kids, index: int, edge: Edge, default: Single)
    requires
        kids.wf(),
        0 <= index < MOVES,
    ensures
        kids.put(index, edge, default).wf(),
        kids.put(index, edge, default).has(index),
        kids.put(index, edge, default).edge(index, default) == edge,
        forall|i: int|
            i != index ==> #[trigger] kids.put(index, edge, default).edge(i, default)
                == kids.edge(i, default),
{
    let next = kids.put(index, edge, default);
    match kids {
        Kids::Dense(edges) => {},
        Kids::Sparse(slots) => {
            if kids.has(index) {
                let at = kids.slot_of(index);
                assert(kids.slot_holds(at, index));
                assert(next.wf());
                assert(next.slot_holds(at, index));
                lemma_slot_of(next, at, index);
                assert forall|i: int| i != index implies #[trigger] next.edge(i, default)
                    == kids.edge(i, default) by {
                    lemma_same_slots(kids, next, i, at);
                }
            } else if slots.len() < SMALL_SIZE {
                let at = slots.len() as int;
                assert forall|k: int| 0 <= k < at implies (#[trigger] slots[k]).0 != index by {
                    if slots[k].0 == index {
                        assert(kids.slot_holds(k, index));
                    }
                }
                assert(next.wf());
                assert(next.slot_holds(at, index));
                lemma_slot_of(next, at, index);
                assert forall|i: int| i != index implies #[trigger] next.edge(i, default)
                    == kids.edge(i, default) by {
                    lemma_same_slots(kids, next, i, at);
                }
            } else {
                assert forall|i: int| i != index && !(0 <= i < MOVES) implies #[trigger] next.edge(
                    i,
                    default,
                ) == kids.edge(i, default) by {
                    if kids.has(i) {
                        let k = kids.slot_of(i);
                        assert(kids.slot_holds(k, i));
                        assert(0 <= slots[k].0 < MOVES);
                    }
                }
            }
        },
    }
}

/// Of two edges that are put for the same move, the last one stays.
pub proof fn lemma_put_put(kids: Kids, index: int, first: Edge, last: Edge, default: Single)
    requires
        kids.wf(),
        0 <= index < MOVES,
    ensures
        kids.put(index, first, default).put(index, last, default) == kids.put(index, last, default),
{
    lemma_put(kids, index, first, default);
    let once = kids.put(index, first, default);
    match kids {
        Kids::Dense(edges) => {
            assert(once.put(index, last, default)->Dense_0 =~= kids.put(
                index,
                last,
                default,
            )->Dense_0);
        },
        Kids::Sparse(slots) => {
            if kids.has(index) {
                let at = kids.slot_of(index);
                assert(kids.slot_holds(at, index));
                assert(once.slot_holds(at, index));
                lemma_slot_of(once, at, index);
                assert(once.put(index, last, default)->Sparse_0 =~= kids.put(
                    index,
                    last,
                    default,
                )->Sparse_0);
            } else if slots.len() < SMALL_SIZE {
                let at = slots.len() as int;
                assert(once.slot_holds(at, index));
                lemma_slot_of(once, at, index);
                assert(once.put(index, last, default)->Sparse_0 =~= kids.put(
                    index,
                    last,
                    default,
                )->Sparse_0);
            } else {
                assert(once.put(index, last, default)->Dense_0 =~= kids.put(
                    index,
                    last,
                    default,
                )->Dense_0);
            }
        },
    }
}

/// Putting back the edge of a move that has been touched changes nothing.
pub proof fn lemma_put_same(kids: Kids, index: int, default: Single)
    requires
        kids.wf(),
        0 <= index < MOVES,
        kids.has(index),
    ensures
        kids.put(index, kids.edge(index, default), default) == kids,
{
    match kids {
        Kids::Dense(edges) => {
            assert(edges.update(index, edges[index]) =~= edges);
        },
        Kids::Sparse(slots) => {
            let at = kids.slot_of(index);
            assert(kids.slot_holds(at, index));
            assert(slots.update(at, (index, slots[at].1)) =~= slots);
        },
    }
}

/// Two sparse nodes whose slots differ at most in slot `at` agree on each move that this
/// slot holds in neither of them.
pub proof fn lemma_same_slots(kids: Kids, next: Kids, i: int, at: int)
    requires
        kids.wf(),
        next.wf(),
        kids is Sparse,
        next is Sparse,
        0 <= at <= kids->Sparse_0.len() <= next->Sparse_0.len() <= kids->Sparse_0.len() + 1,
        next->Sparse_0.len() == kids->Sparse_0.len() || at == kids->Sparse_0.len(),
        forall|k: int|
            0 <= k < kids->Sparse_0.len() && k != at ==> kids->Sparse_0[k] == next->Sparse_0[k],
        !kids.slot_holds(at, i),
        !next.slot_holds(at, i),
    ensures
        next.has(i) == kids.has(i),
        forall|default: Single| next.edge(i, default) == kids.edge(i, default),
{
    if kids.has(i) {
        let k = kids.slot_of(i);
        assert(kids.slot_holds(k, i));
        assert(next.slot_holds(k, i));
        lemma_slot_of(kids, k, i);
        lemma_slot_of(next, k, i);
    }
    if next.has(i) {
        let k = next.slot_of(i);
        assert(next.slot_holds(k, i));
        assert(kids.slot_holds(k, i));
    }
}

/// The visited moves are moves of the game with at least one visit.
pub proof fn lemma_visited_from(kids: Kids, k: int, default: Single)
    requires
        kids.wf(),
        0 <= k,
    ensures
        forall|j: int|
            0 <= j < kids.visited_from(k).len() ==> {
                &&& (#[trigger] kids.visited_from(k)[j]) < MOVES
                &&& kids.edge(kids.visited_from(k)[j] as int, default).count > 0
            },
    decreases kids.width() - k,
{
    if k < kids.width() {
        lemma_visited_from(kids, k + 1, default);
        let i = kids.move_at(k);
        if let Kids::Sparse(slots) = kids {
            assert(0 <= slots[k].0 < MOVES);
            assert(kids.slot_holds(k, i));
            lemma_slot_of(kids, k, i);
        }
        assert(kids.edge(i, default) == kids.edge_at(k));
        let rest = kids.visited_from(k + 1);
        assert forall|j: int| 0 <= j < kids.visited_from(k).len() implies (
        #[trigger] kids.visited_from(k)[j]) < MOVES && kids.edge(
            kids.visited_from(k)[j] as int,
            default,
        ).count > 0 by {
            if kids.edge_at(k).count > 0 {
                if j > 0 {
                    assert(kids.visited_from(k)[j] == rest[j - 1]);
                }
            } else {
                assert(kids.visited_from(k)[j] == rest[j]);
            }
        }
    }
}

/// The visited moves are those at the places from `k` on that were visited, each once.
proof fn lemma_visited_places(kids: Kids, k: int)
    requires
        kids.wf(),
        0 <= k,
    ensures
        kids.visited_from(k).no_duplicates(),
        forall|j: int|
            0 <= j < kids.visited_from(k).len() ==> exists|p: int|
                k <= p < kids.width() && #[trigger] kids.move_at(p)
                    == #[trigger] kids.visited_from(k)[j],
        forall|p: int|
            k <= p < kids.width() && kids.edge_at(p).count > 0 ==> kids.visited_from(k).contains(
                #[trigger] kids.move_at(p) as usize,
            ),
    decreases kids.width() - k,
{
    if k < kids.width() {
        lemma_visited_places(kids, k + 1);
        let rest = kids.visited_from(k + 1);
        let all = kids.visited_from(k);
        let head = kids.move_at(k);
        if let Kids::Sparse(slots) = kids {
            assert(0 <= slots[k].0 < MOVES);
        }
        if kids.edge_at(k).count > 0 {
            assert(all == seq![head as usize] + rest);
            assert forall|j: int| 0 <= j < rest.len() implies #[trigger] rest[j] != head by {
                let p = choose|p: int| k + 1 <= p < kids.width() && kids.move_at(p) == rest[j];
                if let Kids::Sparse(slots) = kids {
                    assert(slots[k].0 != slots[p].0);
                }
            }
            assert forall|j: int| 0 <= j < all.len() implies exists|p: int|
                k <= p < kids.width() && #[trigger] kids.move_at(p) == #[trigger] all[j] by {
                if j == 0 {
                    assert(kids.move_at(k) == all[0]);
                } else {
                    assert(all[j] == rest[j - 1]);
                    let p = choose|p: int|
                        k + 1 <= p < kids.width() && kids.move_at(p) == rest[j - 1];
                    assert(kids.move_at(p) == all[j]);
                }
            }
            assert forall|p: int| k <= p < kids.width() && kids.edge_at(p).count > 0 implies
                all.contains(#[trigger] kids.move_at(p) as usize) by {
                if p == k {
                    assert(all[0] == head as usize);
                } else {
                    let m = kids.move_at(p) as usize;
                    let j = choose|j: int| 0 <= j < rest.len() && rest[j] == m;
                    assert(all[j + 1] == m);
                }
            }
        } else {
            assert(all == rest);
            assert forall|j: int| 0 <= j < all.len() implies exists|p: int|
                k <= p < kids.width() && #[trigger] kids.move_at(p) == #[trigger] all[j] by {
                let p = choose|p: int| k + 1 <= p < kids.width() && kids.move_at(p) == rest[j];
                assert(kids.move_at(p) == all[j]);
            }
        }
    }
}

/// Every visited move is one of those that are listed, and none is listed twice.
pub proof fn lemma_visited(kids: Kids, default: Single)
    requires
        kids.wf(),
    ensures
        kids.visited_from(0).no_duplicates(),
        forall|i: int|
            0 <= i < MOVES ==> (#[trigger] kids.edge(i, default).count > 0
                <==> kids.visited_from(0).contains(i as usize)),
{
    lemma_visited_from(kids, 0, default);
    lemma_visited_places(kids, 0);
    let all = kids.visited_from(0);
    assert forall|i: int| 0 <= i < MOVES implies (#[trigger] kids.edge(i, default).count > 0
        <==> all.contains(i as usize)) by {
        if kids.edge(i, default).count > 0 {
            let k = if kids is Sparse {
                kids.slot_of(i)
            } else {
                i
            };
            if kids is Sparse {
                assert(kids.slot_holds(k, i));
            }
            assert(kids.edge_at(k) == kids.edge(i, default));
            assert(kids.move_at(k) == i);
        }
        if all.contains(i as usize) {
            let j = choose|j: int| 0 <= j < all.len() && all[j] == i as usize;
            assert(kids.edge(all[j] as int, default).count > 0);
        }
    }
}

/// Whether there is a value for each move, and negative infinity after that.
pub open spec fn is_padded(prior: Seq<Single>) -> bool {
    &&& prior.len() == PADDED
    &&& forall|i: int|
        MOVES <= i < PADDED ==> #[trigger] prior[i] == Single::neg_infinity_spec()
}

/// The first elements of the given sequence, one for each move, and negative infinity
/// after that.
pub open spec fn padded(prior: Seq<Single>) -> Seq<Single> {
    Seq::new(
        PADDED as nat,
        |i: int| if i < MOVES {
            prior[i]
        } else {
            Single::neg_infinity_spec()
        },
    )
}

} // verus!
