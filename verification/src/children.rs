use crate::model::{
    lemma_same_slots, lemma_slot_of, lemma_visited, Edge, Kids, Tree, MOVES, PADDED, SMALL_SIZE,
};
use crate::node::Node;
use crate::single::{argmax_count, argmax_single, argmax_single_spec, Single};
use vstd::prelude::*;

verus! {

/// The sub-tree that an optional node stands for.
pub open spec fn tree_of(ptr: Option<Box<Node>>) -> Option<Tree>
    decreases ptr, 0nat,
{
    match ptr {
        Some(node) => Some(node.view()),
        None => None,
    }
}

/// The edge with the given fields.
pub open spec fn edge_of(
    count: i32,
    vcount: i16,
    value: Single,
    expanding: bool,
    ptr: Option<Box<Node>>,
) -> Edge {
    Edge { count, vcount, value, expanding, child: tree_of(ptr) }
}

/// Returns the value to use for a move with the given number of visits and value: `default`
/// where it was never visited, unless it was removed.
fn shown(count: i32, value: Single, default: Single) -> (r: Single)
    ensures
        forall|edge: Edge|
            edge.count == count && edge.value == value ==> r == #[trigger] edge.shown(default),
{
    if count == 0 && value != Single::neg_infinity() {
        default
    } else {
        value
    }
}

/// The values of a single child in a `Node`, at the time at which they were taken.
pub struct Child<'a> {
    pub expanding: bool,
    pub count: i32,
    pub vcount: i16,
    pub ptr: Option<&'a Node>,
    pub value: Single,
}

/// The optional reference to the node in an optional box.
pub open spec fn node_ref<'a>(ptr: Option<Box<Node>>) -> Option<&'a Node> {
    match ptr {
        Some(node) => Some(&*node),
        None => None,
    }
}

/// Returns a reference to the node in the given box, if there is one.
fn borrow_node<'a>(ptr: &'a Option<Box<Node>>) -> (r: Option<&'a Node>)
    ensures
        r == node_ref(*ptr),
{
    match ptr {
        Some(node) => Some(&**node),
        None => None,
    }
}

impl<'a> Child<'a> {
    /// The edge that this child was taken from.
    pub open spec fn edge(self) -> Edge {
        Edge {
            count: self.count,
            vcount: self.vcount,
            value: self.value,
            expanding: self.expanding,
            child: match self.ptr {
                Some(node) => Some(node.view()),
                None => None,
            },
        }
    }

    /// A child that was never touched.
    pub open spec fn with_value_spec(value: Single) -> Child<'a> {
        Child { expanding: false, count: 0, vcount: 0, ptr: None, value }
    }

    /// Returns a default child, with the given `value`. It stands for a child that a sparse
    /// node was asked for and does not contain.
    pub fn with_value(value: Single) -> (r: Child<'a>)
        ensures
            r == Child::with_value_spec(value),
            r.edge() == Edge::blank(value),
    {
        Child { expanding: false, count: 0, vcount: 0, ptr: None, value }
    }

    /// Returns the child in slot `index` of the given sparse node.
    pub fn from_small(small: &'a SmallChildrenImpl, index: usize) -> (r: Child<'a>)
        requires
            index < SMALL_SIZE,
            small.wf(),
        ensures
            r == small.child_at(index as int),
            r.edge() == small.edge_at(index as int),
    {
        Child {
            expanding: small.expanding[index],
            count: small.count[index],
            vcount: small.vcount[index],
            ptr: borrow_node(&small.ptr[index]),
            value: small.value[index],
        }
    }

    /// Returns the child for the move `index` of the given dense node.
    pub fn from_big(big: &'a BigChildrenImpl, index: usize) -> (r: Child<'a>)
        requires
            index < MOVES,
            big.wf(),
        ensures
            r == big.child_at(index as int),
            r.edge() == big.edge_at(index as int),
    {
        Child {
            expanding: big.expanding[index],
            count: big.count[index],
            vcount: big.vcount[index],
            ptr: borrow_node(&big.ptr[index]),
            value: big.value[index],
        }
    }

    /// Returns whether this child is currently being expanded.
    pub fn expanding(&self) -> (r: bool)
        ensures
            r == self.expanding,
    {
        self.expanding
    }

    /// Returns the number of visits to this child.
    pub fn count(&self) -> (r: i32)
        ensures
            r == self.count,
    {
        self.count
    }

    /// Returns the number of virtual visits to this child.
    pub fn vcount(&self) -> (r: i32)
        ensures
            r == self.vcount,
    {
        self.vcount as i32
    }

    /// Returns the child node itself.
    pub fn ptr(&self) -> (r: Option<&'a Node>)
        ensures
            r == self.ptr,
    {
        self.ptr
    }

    /// Returns the average value of this child.
    pub fn value(&self) -> (r: Single)
        ensures
            r == self.value,
    {
        self.value
    }
}

/// The values of a single child in a `Node`, open to change.
pub struct ChildMut<'a> {
    pub expanding: &'a mut bool,
    pub count: &'a mut i32,
    pub vcount: &'a mut i16,
    pub ptr: &'a mut Option<Box<Node>>,
    pub value: &'a mut Single,
}

/// The contents of a child.
pub struct Held {
    pub expanding: bool,
    pub count: i32,
    pub vcount: i16,
    pub ptr: Option<Box<Node>>,
    pub value: Single,
}

impl Held {
    /// The edge with these contents.
    pub open spec fn edge(self) -> Edge {
        edge_of(self.count, self.vcount, self.value, self.expanding, self.ptr)
    }
}

impl<'a> ChildMut<'a> {
    /// The present contents of this child.
    pub open spec fn now(self) -> Held {
        Held {
            expanding: *self.expanding,
            count: *self.count,
            vcount: *self.vcount,
            ptr: *self.ptr,
            value: *self.value,
        }
    }

    /// Returns the child in slot `index` of the given sparse node.
    pub fn from_small(small: &'a mut SmallChildrenImpl, index: usize) -> (r: ChildMut<'a>)
        requires
            index < SMALL_SIZE,
            old(small).ptr@.len() == SMALL_SIZE,
        ensures
            r.now() == old(small).held_at(index as int),
            final(small).expanding@ == old(small).expanding@.update(
                index as int,
                *final(r.expanding),
            ),
            final(small).count@ == old(small).count@.update(index as int, *final(r.count)),
            final(small).vcount@ == old(small).vcount@.update(index as int, *final(r.vcount)),
            final(small).ptr@ == old(small).ptr@.update(index as int, *final(r.ptr)),
            final(small).value@ == old(small).value@.update(index as int, *final(r.value)),
            final(small).indices == old(small).indices,
    {
        ChildMut {
            expanding: &mut small.expanding[index],
            count: &mut small.count[index],
            vcount: &mut small.vcount[index],
            ptr: &mut small.ptr[index],
            value: &mut small.value[index],
        }
    }

    /// Returns the child for the move `index` of the given dense node.
    pub fn from_big(big: &'a mut BigChildrenImpl, index: usize) -> (r: ChildMut<'a>)
        requires
            index < MOVES,
            old(big).wf(),
        ensures
            r.now() == old(big).held_at(index as int),
            final(big).expanding@ == old(big).expanding@.update(
                index as int,
                *final(r.expanding),
            ),
            final(big).count@ == old(big).count@.update(index as int, *final(r.count)),
            final(big).vcount@ == old(big).vcount@.update(index as int, *final(r.vcount)),
            final(big).ptr@ == old(big).ptr@.update(index as int, *final(r.ptr)),
            final(big).value@ == old(big).value@.update(index as int, *final(r.value)),
    {
        ChildMut {
            expanding: &mut big.expanding[index],
            count: &mut big.count[index],
            vcount: &mut big.vcount[index],
            ptr: &mut big.ptr[index],
            value: &mut big.value[index],
        }
    }

    /// Returns whether this child is currently being expanded.
    pub fn expanding(&self) -> (r: bool)
        ensures
            r == *old(self.expanding),
    {
        *self.expanding
    }

    /// Returns the number of visits to this child.
    pub fn count(&self) -> (r: i32)
        ensures
            r == *old(self.count),
    {
        *self.count
    }

    /// Returns the number of virtual visits to this child.
    pub fn vcount(&self) -> (r: i32)
        ensures
            r == *old(self.vcount),
    {
        *self.vcount as i32
    }

    /// Returns the average value of this child.
    pub fn value(&self) -> (r: Single)
        ensures
            r == *old(self.value),
    {
        *self.value
    }

    /// Returns the child node itself.
    pub fn ptr(&self) -> (r: Option<&Node>)
        ensures
            r == node_ref(*old(self.ptr)),
    {
        borrow_node(&*self.ptr)
    }

    /// Sets whether this child is, or has been, expanded.
    pub fn set_expanding(&mut self, value: bool)
        ensures
            *old(final(self).expanding) == value,
            *final(final(self).expanding) == *final(old(self).expanding),
            final(self).count == old(self).count,
            final(self).vcount == old(self).vcount,
            final(self).ptr == old(self).ptr,
            final(self).value == old(self).value,
    {
        *self.expanding = value;
    }

    /// Sets the number of visits to this child.
    pub fn set_count(&mut self, value: i32)
        ensures
            *old(final(self).count) == value,
            *final(final(self).count) == *final(old(self).count),
            final(self).expanding == old(self).expanding,
            final(self).vcount == old(self).vcount,
            final(self).ptr == old(self).ptr,
            final(self).value == old(self).value,
    {
        *self.count = value;
    }

    /// Sets the number of virtual visits to this child, of which sixteen bits are kept.
    pub fn set_vcount(&mut self, value: i32)
        ensures
            *old(final(self).vcount) == value as i16,
            *final(final(self).vcount) == *final(old(self).vcount),
            final(self).expanding == old(self).expanding,
            final(self).count == old(self).count,
            final(self).ptr == old(self).ptr,
            final(self).value == old(self).value,
    {
        *self.vcount = value as i16;
    }

    /// Sets the actual child node.
    pub fn set_ptr(&mut self, value: Option<Box<Node>>)
        ensures
            *old(final(self).ptr) == value,
            *final(final(self).ptr) == *final(old(self).ptr),
            final(self).expanding == old(self).expanding,
            final(self).count == old(self).count,
            final(self).vcount == old(self).vcount,
            final(self).value == old(self).value,
    {
        *self.ptr = value;
    }

    /// Sets the average value of this child.
    pub fn set_value(&mut self, value: Single)
        ensures
            *old(final(self).value) == value,
            *final(final(self).value) == *final(old(self).value),
            final(self).expanding == old(self).expanding,
            final(self).count == old(self).count,
            final(self).vcount == old(self).vcount,
            final(self).ptr == old(self).ptr,
    {
        *self.value = value;
    }
}

/// A dense representation of the edges of a node.
pub struct BigChildrenImpl {
    /// The number of times each edge has been traversed.
    pub count: [i32; 368],
    /// The number of virtual losses each edge has.
    pub vcount: [i16; 368],
    /// The average value for the sub-tree of each edge.
    pub value: [Single; 368],
    /// Whether some thread is currently busy (or is done) expanding the given child. This
    /// keeps the same child from being expanded more than once.
    pub expanding: [bool; 362],
    /// The sub-tree that each edge points towards.
    pub ptr: Vec<Option<Box<Node>>>,
}

impl BigChildrenImpl {
    /// There is room for one sub-tree per move, and nothing is counted beyond the moves.
    pub open spec fn wf(self) -> bool {
        &&& self.ptr@.len() == MOVES
        &&& forall|i: int|
            MOVES <= i < PADDED ==> #[trigger] self.count[i] == 0 && self.vcount[i] == 0
    }

    /// The edge of the move `i`.
    pub open spec fn edge_at(self, i: int) -> Edge
        decreases self, 0nat,
    {
        Edge {
            count: self.count[i],
            vcount: self.vcount[i],
            value: self.value[i],
            expanding: self.expanding[i],
            child: if 0 <= i < self.ptr@.len() {
                tree_of(self.ptr@[i])
            } else {
                None
            },
        }
    }

    /// The child for the move `i`.
    pub open spec fn child_at<'a>(self, i: int) -> Child<'a> {
        Child {
            expanding: self.expanding[i],
            count: self.count[i],
            vcount: self.vcount[i],
            ptr: node_ref(self.ptr@[i]),
            value: self.value[i],
        }
    }

    /// The contents of the move `i`.
    pub open spec fn held_at(self, i: int) -> Held {
        Held {
            expanding: self.expanding[i],
            count: self.count[i],
            vcount: self.vcount[i],
            ptr: self.ptr@[i],
            value: self.value[i],
        }
    }

    /// The edges of all moves.
    pub open spec fn edges(self) -> Seq<Edge>
        decreases self, 1nat,
    {
        Seq::new(MOVES as nat, |i: int| self.edge_at(i))
    }
}

impl BigChildrenImpl {
    /// Returns a dense node that is equivalent to the given sparse one, whose sub-trees it
    /// takes over.
    ///
    /// # Arguments
    ///
    /// * `small` - the node to initialize from
    /// * `value` - the initial _value_ to use for any children not in `small`
    ///
    pub fn from_small(small: SmallChildrenImpl, value: Single) -> (r: BigChildrenImpl)
        requires
            small.wf(),
        ensures
            r.wf(),
            Kids::Dense(r.edges()) == Kids::Sparse(small.slots()).dense(value),
            forall|i: int| 0 <= i < MOVES ==> r.ptr@[i] == #[trigger] small.subtree(i),
            forall|i: int|
                MOVES <= i < PADDED ==> {
                    &&& #[trigger] r.count[i] == 0
                    &&& r.vcount[i] == 0
                    &&& r.value[i] == value
                },
    {
        let mut ptr: Vec<Option<Box<Node>>> = Vec::new();
        let mut i: usize = 0;
        while i < MOVES
            invariant
                i <= MOVES,
                ptr@.len() == i,
                forall|j: int| 0 <= j < i ==> ptr@[j] is None,
            decreases MOVES - i,
        {
            ptr.push(None);
            i += 1;
        }
        let mut big = BigChildrenImpl {
            count: [0; 368],
            vcount: [0; 368],
            value: [value; 368],
            expanding: [false; 362],
            ptr,
        };
        let ghost was = small;
        let ghost kids = Kids::Sparse(was.slots());
        proof {
            was.lemma_view_wf();
        }
        let mut ptr: Vec<Option<Box<Node>>> = small.ptr;
        let mut k: usize = 0;
        while k < SMALL_SIZE
            invariant
                k <= SMALL_SIZE,
                was.wf(),
                kids == Kids::Sparse(was.slots()),
                kids.wf(),
                big.wf(),
                forall|i: int|
                    MOVES <= i < PADDED ==> {
                        &&& #[trigger] big.count[i] == 0
                        &&& big.vcount[i] == 0
                        &&& big.value[i] == value
                    },
                small == was,
                ptr@.len() == SMALL_SIZE,
                forall|j: int| k <= j < SMALL_SIZE ==> ptr@[j] == was.ptr@[j],
                forall|i: int|
                    0 <= i < MOVES ==> #[trigger] big.held_at(i) == was.held_before(
                        i,
                        k as int,
                        value,
                    ),
            decreases SMALL_SIZE - k,
        {
            let other: i16 = small.indices[k];
            proof {
                lemma_used(was.indices@, 0);
                assert(was.indices[k as int] == other);
            }
            let ghost before = big;
            if other >= 0 {
                let at: usize = other as usize;
                big.count[at] = small.count[k];
                big.vcount[at] = small.vcount[k];
                big.value[at] = small.value[k];
                big.expanding[at] = small.expanding[k];
                let taken: Option<Box<Node>> = ptr[k].take();
                big.ptr[at] = taken;
            }
            assert forall|i: int| 0 <= i < MOVES implies #[trigger] big.held_at(i)
                == was.held_before(i, k + 1, value) by {
                assert(before.held_at(i) == was.held_before(i, k as int, value));
                was.lemma_held_before(i, k as int, value);
            }
            assert forall|i: int| MOVES <= i < PADDED implies {
                &&& #[trigger] big.count[i] == 0
                &&& big.vcount[i] == 0
                &&& big.value[i] == value
            } by {
                assert(before.count[i] == 0);
            }
            k += 1;
        }
        proof {
            assert forall|i: int| 0 <= i < MOVES implies #[trigger] big.edge_at(i) == kids.edge(
                i,
                value,
            ) && big.ptr@[i] == was.subtree(i) by {
                assert(big.held_at(i) == was.held_before(i, SMALL_SIZE as int, value));
                was.lemma_held_all(i, value);
            }
            let dense = kids.dense(value)->Dense_0;
            assert forall|i: int| 0 <= i < MOVES implies #[trigger] big.edges()[i] == dense[i] by {
                assert(big.edge_at(i) == kids.edge(i, value));
            }
            assert(big.edges() =~= dense);
            assert forall|i: int| 0 <= i < MOVES implies big.ptr@[i] == #[trigger] was.subtree(
                i,
            ) by {
                assert(big.edge_at(i) == kids.edge(i, value));
            }
        }
        big
    }
}

/// Possible results for looking up a move in a sparse node.
pub enum SmallChildrenResult {
    /// The slot that holds the move.
    Found(usize),
    /// The first unused slot.
    NotFound(usize),
    /// There is neither.
    Overflow,
}

/// A sparse representation of the edges of a node, that only stores a few children before
/// it overflows. `indices` maps from the slot of a child to its move, and is not sorted.
pub struct SmallChildrenImpl {
    /// The number of times each edge has been traversed.
    pub count: [i32; 8],
    /// The number of virtual losses each edge has.
    pub vcount: [i16; 8],
    /// The average value for the sub-tree of each edge.
    pub value: [Single; 8],
    /// Whether some thread is currently busy (or is done) expanding the given child. This
    /// keeps the same child from being expanded more than once.
    pub expanding: [bool; 8],
    /// The sub-tree that each edge points towards.
    pub ptr: Vec<Option<Box<Node>>>,
    /// The moves of the children stored in this node, negative where a slot is unused.
    pub indices: [i16; 8],
}

/// The first unused slot at or after slot `k`.
pub open spec fn used_from(indices: Seq<i16>, k: int) -> int
    decreases indices.len() - k,
{
    if k < 0 || k >= indices.len() || indices[k] < 0 {
        k
    } else {
        used_from(indices, k + 1)
    }
}

/// The slots before the first unused one are in use.
proof fn lemma_used(indices: Seq<i16>, k: int)
    requires
        0 <= k <= indices.len(),
    ensures
        k <= used_from(indices, k) <= indices.len(),
        forall|j: int| k <= j < used_from(indices, k) ==> indices[j] >= 0,
        used_from(indices, k) < indices.len() ==> indices[used_from(indices, k)] < 0,
    decreases indices.len() - k,
{
    if k < indices.len() && indices[k] >= 0 {
        lemma_used(indices, k + 1);
    }
}

/// The first unused slot is the only unused one that follows used ones alone.
proof fn lemma_used_is(indices: Seq<i16>, k: int, n: int)
    requires
        0 <= k <= n <= indices.len(),
        forall|j: int| k <= j < n ==> indices[j] >= 0,
        n < indices.len() ==> indices[n] < 0,
    ensures
        used_from(indices, k) == n,
    decreases n - k,
{
    if k < n {
        lemma_used_is(indices, k + 1, n);
    }
}

impl SmallChildrenImpl {
    /// The number of slots in use.
    pub open spec fn used(self) -> int {
        used_from(self.indices@, 0)
    }

    /// The slots in use come first and hold different moves, and those after them are as
    /// they were made.
    pub open spec fn wf(self) -> bool {
        &&& self.ptr@.len() == SMALL_SIZE
        &&& 0 <= self.used() <= SMALL_SIZE
        &&& forall|k: int| 0 <= k < self.used() ==> 0 <= #[trigger] self.indices[k] < MOVES
        &&& forall|j: int, k: int|
            0 <= j < k < self.used() ==> #[trigger] self.indices[j] != #[trigger] self.indices[k]
        &&& forall|k: int|
            self.used() <= k < SMALL_SIZE ==> {
                &&& #[trigger] self.indices[k] < 0
                &&& self.count[k] == 0
                &&& self.vcount[k] == 0
                &&& !self.expanding[k]
                &&& self.ptr@[k] is None
            }
    }

    /// The edge in slot `k`.
    pub open spec fn edge_at(self, k: int) -> Edge
        decreases self, 0nat,
    {
        Edge {
            count: self.count[k],
            vcount: self.vcount[k],
            value: self.value[k],
            expanding: self.expanding[k],
            child: if 0 <= k < self.ptr@.len() {
                tree_of(self.ptr@[k])
            } else {
                None
            },
        }
    }

    /// The child in slot `k`.
    pub open spec fn child_at<'a>(self, k: int) -> Child<'a> {
        Child {
            expanding: self.expanding[k],
            count: self.count[k],
            vcount: self.vcount[k],
            ptr: node_ref(self.ptr@[k]),
            value: self.value[k],
        }
    }

    /// The contents of slot `k`.
    pub open spec fn held_at(self, k: int) -> Held {
        Held {
            expanding: self.expanding[k],
            count: self.count[k],
            vcount: self.vcount[k],
            ptr: self.ptr@[k],
            value: self.value[k],
        }
    }

    /// The slots in use, with their moves.
    pub open spec fn slots(self) -> Seq<(int, Edge)>
        decreases self, 1nat,
    {
        Seq::new(self.used() as nat, |k: int| (self.indices[k] as int, self.edge_at(k)))
    }
}

impl SmallChildrenImpl {
    /// The sub-tree below the given move.
    pub open spec fn subtree(self, index: int) -> Option<Box<Node>> {
        if Kids::Sparse(self.slots()).has(index) {
            self.ptr@[Kids::Sparse(self.slots()).slot_of(index)]
        } else {
            None
        }
    }

    /// What the first `n` slots hold of the given move.
    spec fn held_before(self, index: int, n: int, value: Single) -> Held
        decreases n,
    {
        if n <= 0 {
            Held { expanding: false, count: 0, vcount: 0, ptr: None, value }
        } else if self.indices[n - 1] >= 0 && self.indices[n - 1] == index {
            self.held_at(n - 1)
        } else {
            self.held_before(index, n - 1, value)
        }
    }

    proof fn lemma_held_before(self, index: int, n: int, value: Single)
        requires
            0 <= n,
        ensures
            self.held_before(index, n + 1, value) == if self.indices[n] >= 0 && self.indices[n]
                == index {
                self.held_at(n)
            } else {
                self.held_before(index, n, value)
            },
    {
    }

    proof fn lemma_held_upto(self, index: int, n: int, value: Single)
        requires
            self.wf(),
            0 <= n <= SMALL_SIZE,
        ensures
            match self.held_slot(index) {
                Some(k) => self.held_before(index, n, value) == if k < n {
                    self.held_at(k)
                } else {
                    self.held_before(index, 0, value)
                },
                None => self.held_before(index, n, value) == self.held_before(index, 0, value),
            },
        decreases n,
    {
        let kids = Kids::Sparse(self.slots());
        self.lemma_view_wf();
        lemma_used(self.indices@, 0);
        if n > 0 {
            self.lemma_held_upto(index, n - 1, value);
            self.lemma_held_before(index, n - 1, value);
            if self.indices[n - 1] >= 0 && self.indices[n - 1] == index {
                assert(kids.slot_holds(n - 1, index));
                lemma_slot_of(kids, n - 1, index);
            }
            if kids.has(index) {
                assert(kids.slot_holds(kids.slot_of(index), index));
            }
        }
    }

    /// The slot of the given move.
    spec fn held_slot(self, index: int) -> Option<int> {
        if Kids::Sparse(self.slots()).has(index) {
            Some(Kids::Sparse(self.slots()).slot_of(index))
        } else {
            None
        }
    }

    proof fn lemma_held_all(self, index: int, value: Single)
        requires
            self.wf(),
        ensures
            self.held_before(index, SMALL_SIZE as int, value).edge() == Kids::Sparse(
                self.slots(),
            ).edge(index, value),
            self.held_before(index, SMALL_SIZE as int, value).ptr == self.subtree(index),
    {
        let kids = Kids::Sparse(self.slots());
        self.lemma_held_upto(index, SMALL_SIZE as int, value);
        if kids.has(index) {
            assert(kids.slot_holds(kids.slot_of(index), index));
        }
    }

    /// The slot with the value of the given move.
    spec fn value_slot(self, index: int) -> int {
        if Kids::Sparse(self.slots()).has(index) {
            Kids::Sparse(self.slots()).slot_of(index)
        } else {
            self.used()
        }
    }

    proof fn lemma_slot_value(self, index: int, v: Single)
        requires
            self.wf(),
            ChildrenImpl::Small(self).vacant(v),
            Kids::Sparse(self.slots()).has(index) || self.used() < SMALL_SIZE,
        ensures
            0 <= self.value_slot(index) < SMALL_SIZE,
            Kids::Sparse(self.slots()).edge(index, v).value == self.value[self.value_slot(index)],
    {
        let kids = Kids::Sparse(self.slots());
        lemma_used(self.indices@, 0);
        if kids.has(index) {
            assert(kids.slot_holds(kids.slot_of(index), index));
        } else {
            let all = ChildrenImpl::Small(self);
            assert(all.vacant(v));
            assert(all->Small_0.value[self.used()] == v);
        }
    }

    /// The slots in use hold different moves.
    pub proof fn lemma_view_wf(self)
        requires
            self.wf(),
        ensures
            Kids::Sparse(self.slots()).wf(),
    {
    }

    /// Returns an empty sparse node.
    ///
    /// # Arguments
    ///
    /// * `value` - the initial _value_ for any child
    ///
    pub fn with_value(value: Single) -> (r: SmallChildrenImpl)
        ensures
            r.wf(),
            r.slots() == Seq::<(int, Edge)>::empty(),
            forall|k: int| 0 <= k < SMALL_SIZE ==> r.value[k] == value,
    {
        let mut ptr: Vec<Option<Box<Node>>> = Vec::new();
        let mut i: usize = 0;
        while i < SMALL_SIZE
            invariant
                i <= SMALL_SIZE,
                ptr@.len() == i,
                forall|j: int| 0 <= j < i ==> ptr@[j] is None,
            decreases SMALL_SIZE - i,
        {
            ptr.push(None);
            i += 1;
        }
        let small = SmallChildrenImpl {
            count: [0; 8],
            vcount: [0; 8],
            value: [value; 8],
            expanding: [false; 8],
            ptr,
            indices: [i16::MIN; 8],
        };
        assert(small.indices[0] < 0);
        assert(small.slots() =~= Seq::empty());
        small
    }

    /// Returns the slot of the given move, or `None` if it does not exist in this node.
    ///
    /// # Arguments
    ///
    /// * `index` - the move to search for
    ///
    pub fn find_index_fast(&self, index: usize) -> (r: Option<usize>)
        requires
            self.wf(),
        ensures
            r is Some == Kids::Sparse(self.slots()).has(index as int),
            r is Some ==> r->0 < self.used() && r->0 == Kids::Sparse(self.slots()).slot_of(
                index as int,
            ),
    {
        proof {
            self.lemma_view_wf();
            lemma_used(self.indices@, 0);
        }
        let ghost kids = Kids::Sparse(self.slots());
        let mut k: usize = 0;
        while k < SMALL_SIZE
            invariant
                k <= SMALL_SIZE,
                self.wf(),
                kids == Kids::Sparse(self.slots()),
                kids.wf(),
                forall|j: int| 0 <= j < k ==> !kids.slot_holds(j, index as int),
            decreases SMALL_SIZE - k,
        {
            let here: i16 = self.indices[k];
            assert(self.indices[k as int] == here);
            if here >= 0 && here as usize == index {
                proof {
                    assert(kids.slot_holds(k as int, index as int));
                    lemma_slot_of(kids, k as int, index as int);
                }
                return Some(k);
            }
            assert(!kids.slot_holds(k as int, index as int));
            k += 1;
        }
        assert(forall|j: int| !kids.slot_holds(j, index as int));
        None
    }

    /// Returns the first unused slot in this node, or `None` if this node is full.
    pub fn find_empty_fast(&self) -> (r: Option<usize>)
        requires
            self.wf(),
        ensures
            r is Some == (self.used() < SMALL_SIZE),
            r is Some ==> r->0 == self.used(),
    {
        proof {
            lemma_used(self.indices@, 0);
        }
        let mut k: usize = 0;
        while k < SMALL_SIZE
            invariant
                k <= SMALL_SIZE,
                self.wf(),
                forall|j: int| 0 <= j < k ==> self.indices[j] >= 0,
            decreases SMALL_SIZE - k,
        {
            if self.indices[k] < 0 {
                proof {
                    lemma_used_is(self.indices@, 0, k as int);
                }
                return Some(k);
            }
            k += 1;
        }
        proof {
            lemma_used_is(self.indices@, 0, SMALL_SIZE as int);
        }
        None
    }

    /// Returns the slot of the given move, or the slot where it can be inserted.
    ///
    /// # Arguments
    ///
    /// * `index` - the move to search for
    ///
    pub fn find_index(&self, index: usize) -> (r: SmallChildrenResult)
        requires
            self.wf(),
        ensures
            match r {
                SmallChildrenResult::Found(k) => {
                    &&& Kids::Sparse(self.slots()).has(index as int)
                    &&& k < self.used()
                    &&& k == Kids::Sparse(self.slots()).slot_of(index as int)
                },
                SmallChildrenResult::NotFound(k) => {
                    &&& !Kids::Sparse(self.slots()).has(index as int)
                    &&& k < SMALL_SIZE
                    &&& k == self.used()
                },
                SmallChildrenResult::Overflow => {
                    &&& !Kids::Sparse(self.slots()).has(index as int)
                    &&& self.used() == SMALL_SIZE
                },
            },
    {
        match self.find_index_fast(index) {
            Some(k) => SmallChildrenResult::Found(k),
            None => {
                match self.find_empty_fast() {
                    Some(k) => SmallChildrenResult::NotFound(k),
                    None => SmallChildrenResult::Overflow,
                }
            },
        }
    }
}

/// Either a `SmallChildrenImpl` or a `BigChildrenImpl`, where the latter is stored on the
/// heap.
pub enum ChildrenImpl {
    Small(SmallChildrenImpl),
    Big(Box<BigChildrenImpl>),
}

impl ChildrenImpl {
    /// Whichever representation is in use is laid out as it should be.
    pub open spec fn wf(self) -> bool {
        match self {
            ChildrenImpl::Small(small) => small.wf(),
            ChildrenImpl::Big(big) => big.wf(),
        }
    }

    /// The edges.
    pub open spec fn view(&self) -> Kids
        decreases *self, 2nat,
    {
        match *self {
            ChildrenImpl::Small(small) => Kids::Sparse(small.slots()),
            ChildrenImpl::Big(big) => Kids::Dense(big.edges()),
        }
    }
}

/// A sparse node does not hold every move.
proof fn lemma_not_all_held(kids: Kids)
    requires
        kids is Sparse,
        kids.wf(),
    ensures
        exists|i: int| 0 <= i < MOVES && !kids.has(i),
{
    if forall|i: int| 0 <= i < MOVES ==> kids.has(i) {
        let moves = kids->Sparse_0.map_values(|slot: (int, Edge)| slot.0);
        let all = vstd::set_lib::set_int_range(0, MOVES as int);
        vstd::set_lib::lemma_int_range(0, MOVES as int);
        moves.lemma_cardinality_of_set();
        assert forall|i: int| all.contains(i) implies moves.to_set().contains(i) by {
            assert(kids.has(i));
            let k = kids.slot_of(i);
            assert(kids.slot_holds(k, i));
            assert(moves[k] == i);
        }
        vstd::seq_lib::seq_to_set_is_finite(moves);
        vstd::set_lib::lemma_len_subset(all, moves.to_set());
    }
}

/// Writing to slot `k` of a sparse node, which is that of the move `index` or the first
/// unused one, puts an edge for this move.
proof fn lemma_small_put(
    was: SmallChildrenImpl,
    now: SmallChildrenImpl,
    k: int,
    index: int,
    default: Single,
)
    requires
        was.wf(),
        0 <= index < MOVES,
        0 <= k < SMALL_SIZE,
        Kids::Sparse(was.slots()).has(index) ==> k == Kids::Sparse(was.slots()).slot_of(index),
        !Kids::Sparse(was.slots()).has(index) ==> k == was.used(),
        now.ptr@.len() == SMALL_SIZE,
        now.indices@ == was.indices@.update(k, index as i16),
        forall|j: int|
            0 <= j < SMALL_SIZE && j != k ==> #[trigger] now.held_at(j) == was.held_at(j),
    ensures
        now.wf(),
        Kids::Sparse(now.slots()) == Kids::Sparse(was.slots()).put(index, now.edge_at(k), default),
        now.subtree(index) == now.ptr@[k],
        forall|i: int| i != index ==> #[trigger] now.subtree(i) == was.subtree(i),
        was.used() <= now.used(),
        k < now.used(),
{
    let before = Kids::Sparse(was.slots());
    let after = Kids::Sparse(now.slots());
    was.lemma_view_wf();
    lemma_used(was.indices@, 0);
    if before.has(index) {
        assert(before.slot_holds(k, index));
        assert(now.indices@ =~= was.indices@);
        assert forall|j: int| was.used() <= j < SMALL_SIZE implies {
            &&& #[trigger] now.indices[j] < 0
            &&& now.count[j] == 0
            &&& now.vcount[j] == 0
            &&& !now.expanding[j]
            &&& now.ptr@[j] is None
        } by {
            assert(now.held_at(j) == was.held_at(j));
            assert(was.indices[j] < 0);
        }
        assert(now.wf());
        assert forall|j: int| 0 <= j < was.used() && j != k implies #[trigger] now.edge_at(j)
            == was.edge_at(j) by {
            assert(now.held_at(j) == was.held_at(j));
        }
        let want = was.slots().update(k, (index, now.edge_at(k)));
        assert forall|j: int| 0 <= j < was.used() implies #[trigger] now.slots()[j] == want[j] by {
            if j != k {
                assert(now.edge_at(j) == was.edge_at(j));
            }
        }
        assert(now.slots() =~= want);
    } else {
        assert forall|j: int| 0 <= j < SMALL_SIZE implies #[trigger] now.indices[j] == if j == k {
            index as i16
        } else {
            was.indices[j]
        } by {}
        assert(forall|j: int| 0 <= j < k ==> was.indices[j] >= 0);
        assert(k + 1 < SMALL_SIZE ==> was.indices[k + 1] < 0);
        lemma_used_is(now.indices@, 0, k + 1);
        assert forall|j: int| 0 <= j < k implies was.indices[j] != index by {
            if was.indices[j] == index {
                assert(before.slot_holds(j, index));
            }
        }
        assert forall|j: int| k < j < SMALL_SIZE implies {
            &&& #[trigger] now.indices[j] < 0
            &&& now.count[j] == 0
            &&& now.vcount[j] == 0
            &&& !now.expanding[j]
            &&& now.ptr@[j] is None
        } by {
            assert(now.held_at(j) == was.held_at(j));
            assert(was.indices[j] < 0);
        }
        assert(now.wf());
        assert forall|j: int| 0 <= j < k implies #[trigger] now.edge_at(j) == was.edge_at(j) by {
            assert(now.held_at(j) == was.held_at(j));
        }
        let want = was.slots().push((index, now.edge_at(k)));
        assert forall|j: int| 0 <= j <= k implies #[trigger] now.slots()[j] == want[j] by {
            if j != k {
                assert(now.edge_at(j) == was.edge_at(j));
            }
        }
        assert(now.slots() =~= want);
    }
    now.lemma_view_wf();
    assert(after.slot_holds(k, index));
    lemma_slot_of(after, k, index);
    assert forall|i: int| i != index implies #[trigger] now.subtree(i) == was.subtree(i) by {
        lemma_same_slots(before, after, i, k);
        if before.has(i) {
            let j = before.slot_of(i);
            assert(before.slot_holds(j, i));
            assert(after.slot_holds(j, i));
            lemma_slot_of(after, j, i);
            assert(now.held_at(j) == was.held_at(j));
        }
    }
}

/// Writing to the move `index` of a dense node puts an edge for this move.
proof fn lemma_big_put(
    was: BigChildrenImpl,
    now: BigChildrenImpl,
    index: int,
    default: Single,
)
    requires
        was.wf(),
        now.wf(),
        0 <= index < MOVES,
        forall|j: int|
            0 <= j < MOVES && j != index ==> #[trigger] now.held_at(j) == was.held_at(j),
    ensures
        Kids::Dense(now.edges()) == Kids::Dense(was.edges()).put(
            index,
            now.edge_at(index),
            default,
        ),
{
    assert forall|j: int| 0 <= j < MOVES && j != index implies #[trigger] now.edge_at(j)
        == was.edge_at(j) by {
        assert(now.held_at(j) == was.held_at(j));
    }
    let want = was.edges().update(index, now.edge_at(index));
    assert forall|j: int| 0 <= j < MOVES implies #[trigger] now.edges()[j] == want[j] by {
        if j != index {
            assert(now.edge_at(j) == was.edge_at(j));
        }
    }
    assert(now.edges() =~= want);
}

impl ChildrenImpl {
    /// The sub-tree below the given move.
    pub open spec fn subtree(self, index: int) -> Option<Box<Node>> {
        match self {
            ChildrenImpl::Small(small) => small.subtree(index),
            ChildrenImpl::Big(big) => if 0 <= index < big.ptr@.len() {
                big.ptr@[index]
            } else {
                None
            },
        }
    }

    /// Every unused slot has the given value.
    pub open spec fn vacant(self, value: Single) -> bool {
        self matches ChildrenImpl::Small(small) ==> forall|k: int|
            small.used() <= k < SMALL_SIZE ==> #[trigger] small.value[k] == value
    }

    /// The values beyond those of the moves, which a sparse node has only once it is dense.
    pub open spec fn padding(self, initial_value: Single) -> Seq<Single> {
        match self {
            ChildrenImpl::Small(_) => Seq::new((PADDED - MOVES) as nat, |i: int| initial_value),
            ChildrenImpl::Big(big) => big.value@.subrange(MOVES as int, PADDED as int),
        }
    }

    /// The value that an untouched move has once it is touched: that of the first unused
    /// slot, or `initial_value` where there is none.
    pub open spec fn fresh(self, initial_value: Single) -> Single {
        match self {
            ChildrenImpl::Small(small) => if small.used() < SMALL_SIZE {
                small.value[small.used()]
            } else {
                initial_value
            },
            ChildrenImpl::Big(big) => initial_value,
        }
    }

    /// The child for the given move, where an untouched move has the given value.
    pub open spec fn child<'a>(self, index: int, initial_value: Single) -> Child<'a> {
        match self {
            ChildrenImpl::Small(small) => if self.view().has(index) {
                small.child_at(self.view().slot_of(index))
            } else {
                Child::with_value_spec(initial_value)
            },
            ChildrenImpl::Big(big) => big.child_at(index),
        }
    }

    /// The contents of the given move once it is touched.
    pub open spec fn held(self, index: int, initial_value: Single) -> Held {
        if self.view().has(index) {
            match self {
                ChildrenImpl::Small(small) => small.held_at(self.view().slot_of(index)),
                ChildrenImpl::Big(big) => big.held_at(index),
            }
        } else {
            Held {
                expanding: false,
                count: 0,
                vcount: 0,
                ptr: None,
                value: self.fresh(initial_value),
            }
        }
    }

    /// The edges are laid out as they should be.
    pub proof fn lemma_view_wf(self)
        requires
            self.wf(),
        ensures
            self.view().wf(),
    {
        if let ChildrenImpl::Small(small) = self {
            small.lemma_view_wf();
        }
    }

    /// The child for a move has the edge of this move.
    pub proof fn lemma_child(self, index: int, initial_value: Single)
        requires
            self.wf(),
            self is Big ==> 0 <= index < MOVES,
        ensures
            self.child(index, initial_value).edge() == self.view().edge(index, initial_value),
            self.child(index, initial_value).ptr == node_ref(self.subtree(index)),
    {
        self.lemma_view_wf();
        if self is Small && self.view().has(index) {
            assert(self.view().slot_holds(self.view().slot_of(index), index));
        }
    }

    /// A move that is touched has the edge that it had before.
    pub proof fn lemma_held(self, index: int, initial_value: Single)
        requires
            self.wf(),
            0 <= index < MOVES,
        ensures
            self.held(index, initial_value).edge() == self.view().edge(
                index,
                self.fresh(initial_value),
            ),
            self.held(index, initial_value).ptr == self.subtree(index),
    {
        self.lemma_view_wf();
        if self is Small && self.view().has(index) {
            assert(self.view().slot_holds(self.view().slot_of(index), index));
        }
    }

    /// Returns the child for the given move, which takes an unused slot if it was never
    /// touched. A sparse node without one becomes dense first.
    ///
    /// # Arguments
    ///
    /// * `index` - the move
    /// * `initial_value` - the value of the untouched moves of a node that becomes dense
    ///
    pub fn child_mut<'a>(&'a mut self, index: usize, initial_value: Single) -> (c: ChildMut<'a>)
        requires
            old(self).wf(),
            index < MOVES,
        ensures
            c.now() == old(self).held(index as int, initial_value),
            final(self).wf(),
            final(self).view() == old(self).view().put(
                index as int,
                edge_of(
                    *final(c.count),
                    *final(c.vcount),
                    *final(c.value),
                    *final(c.expanding),
                    *final(c.ptr),
                ),
                initial_value,
            ),
            final(self).subtree(index as int) == *final(c.ptr),
            forall|i: int|
                0 <= i < MOVES && i != index ==> #[trigger] final(self).subtree(i) == old(
                    self,
                ).subtree(i),
            forall|value: Single| old(self).vacant(value) ==> #[trigger] final(self).vacant(value),
            final(self).padding(initial_value) == old(self).padding(initial_value),
    {
        let ghost was = *self;
        proof {
            was.lemma_view_wf();
        }
        let overflow: bool = match &*self {
            ChildrenImpl::Small(small) => match small.find_index(index) {
                SmallChildrenResult::Overflow => true,
                _ => false,
            },
            ChildrenImpl::Big(_) => false,
        };
        if overflow {
            let mut full: ChildrenImpl = ChildrenImpl::Small(
                SmallChildrenImpl::with_value(initial_value),
            );
            std::mem::swap(self, &mut full);
            if let ChildrenImpl::Small(small) = full {
                *self = ChildrenImpl::Big(
                    Box::new(BigChildrenImpl::from_small(small, initial_value)),
                );
            }
        }
        match self {
            ChildrenImpl::Small(small) => {
                let ghost before = *small;
                let k: usize = match small.find_index(index) {
                    SmallChildrenResult::Found(k) => k,
                    SmallChildrenResult::NotFound(k) => {
                        small.indices[k] = index as i16;
                        k
                    },
                    SmallChildrenResult::Overflow => {
                        assert(false);
                        0
                    },
                };
                proof {
                    lemma_used(before.indices@, 0);
                    let kids = Kids::Sparse(before.slots());
                    if kids.has(index as int) {
                        assert(kids.slot_holds(k as int, index as int));
                    } else {
                        assert(before.indices[k as int] < 0);
                    }
                    assert(small.indices@ =~= before.indices@.update(k as int, index as i16));
                }
                let ghost later = *final(small);
                let c = ChildMut::from_small(small, k);
                proof {
                    lemma_small_put(before, later, k as int, index as int, initial_value);
                }
                c
            },
            ChildrenImpl::Big(big) => {
                let ghost before = **big;
                proof {
                    if was is Small {
                        assert(before.edges()[index as int] == was.view().edge(
                            index as int,
                            initial_value,
                        ));
                        assert(before.ptr@[index as int] == was.subtree(index as int));
                    }
                }
                let ghost later = **final(big);
                let c = ChildMut::from_big(&mut **big, index);
                proof {
                    assert forall|i: int| MOVES <= i < PADDED implies #[trigger] later.count[i] == 0
                        && later.vcount[i] == 0 by {
                        assert(before.count[i] == 0);
                    }
                    lemma_big_put(before, later, index as int, initial_value);
                    assert(later.value@.subrange(MOVES as int, PADDED as int)
                        =~= before.value@.subrange(MOVES as int, PADDED as int));
                    if was is Small {
                        assert forall|i: int| MOVES <= i < PADDED implies before.value@[i]
                            == initial_value by {
                            assert(before.count[i] == 0);
                        }
                        assert(before.value@.subrange(MOVES as int, PADDED as int) =~= was.padding(
                            initial_value,
                        ));
                    }
                }
                c
            },
        }
    }
}

impl ChildrenImpl {
    /// Returns the child for the given move.
    fn child_for<'a>(&'a self, index: usize, initial_value: Single) -> (r: Child<'a>)
        requires
            self.wf(),
            self is Big ==> index < MOVES,
        ensures
            r == self.child(index as int, initial_value),
            r.edge() == self.view().edge(index as int, initial_value),
    {
        proof {
            self.lemma_child(index as int, initial_value);
        }
        match self {
            ChildrenImpl::Small(small) => match small.find_index(index) {
                SmallChildrenResult::Found(k) => Child::from_small(small, k),
                _ => Child::with_value(initial_value),
            },
            ChildrenImpl::Big(big) => Child::from_big(&**big, index),
        }
    }

    /// Returns the result of the given callback, which is called with the child for the
    /// given move.
    ///
    /// # Arguments
    ///
    /// * `index` - the move
    /// * `callback` - what to do with the child
    /// * `initial_value` - the value of a move that was never touched
    ///
    pub fn with<'a, T, F: FnOnce(Child<'a>) -> T>(
        &'a self,
        index: usize,
        callback: F,
        initial_value: Single,
    ) -> (r: T)
        requires
            self.wf(),
            self is Big ==> index < MOVES,
            call_requires(callback, (self.child(index as int, initial_value),)),
        ensures
            call_ensures(callback, (self.child(index as int, initial_value),), r),
            self.child(index as int, initial_value).edge() == self.view().edge(
                index as int,
                initial_value,
            ),
    {
        callback(self.child_for(index, initial_value))
    }

    /// Returns the result of the given callback, which is called with the child for the
    /// given move and may change it.
    ///
    /// # Arguments
    ///
    /// * `index` - the move
    /// * `callback` - what to do with the child
    /// * `initial_value` - the value of the untouched moves of a node that becomes dense
    ///
    pub fn with_mut<T, F: FnOnce(ChildMut) -> T>(
        &mut self,
        index: usize,
        callback: F,
        initial_value: Single,
    ) -> (r: T)
        requires
            old(self).wf(),
            index < MOVES,
            forall|c: ChildMut|
                c.now() == old(self).held(index as int, initial_value) ==> #[trigger] call_requires(
                    callback,
                    (c,),
                ),
        ensures
            final(self).wf(),
            exists|c: ChildMut|
                {
                    &&& #[trigger] call_ensures(callback, (c,), r)
                    &&& c.now() == old(self).held(index as int, initial_value)
                    &&& final(self).view() == old(self).view().put(
                        index as int,
                        edge_of(
                            *final(c.count),
                            *final(c.vcount),
                            *final(c.value),
                            *final(c.expanding),
                            *final(c.ptr),
                        ),
                        initial_value,
                    )
                    &&& final(self).subtree(index as int) == *final(c.ptr)
                },
            forall|i: int|
                0 <= i < MOVES && i != index ==> #[trigger] final(self).subtree(i) == old(
                    self,
                ).subtree(i),
            forall|value: Single| old(self).vacant(value) ==> #[trigger] final(self).vacant(value),
            final(self).padding(initial_value) == old(self).padding(initial_value),
    {
        callback(self.child_mut(index, initial_value))
    }

    /// The value of each move, and `default_value` for those that were never visited, unless
    /// they were removed, and for the padding.
    pub open spec fn values(self, default_value: Single) -> Seq<Single> {
        Seq::new(
            PADDED as nat,
            |i: int| if i < MOVES {
                self.view().edge(i, default_value).shown(default_value)
            } else {
                default_value
            },
        )
    }

    /// Returns the scattered value array of all children.
    ///
    /// # Arguments
    ///
    /// * `default_value` - the value to use for any unvisited children, but for those that were
    ///   disqualified, which keep negative infinity
    ///
    pub fn value(&self, default_value: Single) -> (r: Vec<Single>)
        requires
            self.wf(),
        ensures
            r@ == self.values(default_value),
    {
        let mut out: Vec<Single> = Vec::new();
        match self {
            ChildrenImpl::Big(big) => {
                let mut i: usize = 0;
                while i < PADDED
                    invariant
                        i <= PADDED,
                        out@.len() == i,
                        *self matches ChildrenImpl::Big(b) && b == big,
                        forall|j: int|
                            0 <= j < i ==> #[trigger] out@[j] == self.values(default_value)[j],
                    decreases PADDED - i,
                {
                    if i < MOVES {
                        assert(self.view()->Dense_0[i as int] == big.edge_at(i as int));
                        out.push(shown(big.count[i], big.value[i], default_value));
                    } else {
                        out.push(default_value);
                    }
                    i += 1;
                }
                assert(out@ =~= self.values(default_value));
            },
            ChildrenImpl::Small(small) => {
                let ghost kids = self.view();
                proof {
                    small.lemma_view_wf();
                    lemma_used(small.indices@, 0);
                }
                let mut i: usize = 0;
                while i < PADDED
                    invariant
                        i <= PADDED,
                        out@.len() == i,
                        forall|j: int| 0 <= j < i ==> out@[j] == default_value,
                    decreases PADDED - i,
                {
                    out.push(default_value);
                    i += 1;
                }
                let mut k: usize = 0;
                while k < SMALL_SIZE
                    invariant
                        k <= SMALL_SIZE,
                        small.wf(),
                        out@.len() == PADDED,
                        forall|j: int|
                            0 <= j < PADDED ==> #[trigger] out@[j] == small.held_before(
                                j,
                                k as int,
                                default_value,
                            ).edge().shown(default_value),
                    decreases SMALL_SIZE - k,
                {
                    let other: i16 = small.indices[k];
                    let ghost before = out@;
                    if other >= 0 {
                        proof {
                            lemma_used(small.indices@, 0);
                            assert(small.indices[k as int] == other);
                        }
                        let value: Single = shown(small.count[k], small.value[k], default_value);
                        out.set(other as usize, value);
                    }
                    assert forall|j: int| 0 <= j < PADDED implies #[trigger] out@[j]
                        == small.held_before(j, k + 1, default_value).edge().shown(
                        default_value,
                    ) by {
                        assert(before[j] == small.held_before(
                            j,
                            k as int,
                            default_value,
                        ).edge().shown(default_value));
                        small.lemma_held_before(j, k as int, default_value);
                    }
                    k += 1;
                }
                assert forall|j: int| 0 <= j < PADDED implies #[trigger] out@[j] == self.values(
                    default_value,
                )[j] by {
                    small.lemma_held_all(j, default_value);
                    if kids.has(j) {
                        assert(kids.slot_holds(kids.slot_of(j), j));
                    }
                }
                assert(out@ =~= self.values(default_value));
            },
        }
        out
    }

    /// Returns the index of the child with the largest number of visits.
    pub fn argmax_count(&self) -> (r: usize)
        requires
            self.wf(),
        ensures
            r < MOVES,
            r == self.view().busiest(),
    {
        let ghost kids = self.view();
        let mut counts: Vec<i32> = Vec::new();
        match self {
            ChildrenImpl::Big(big) => {
                let mut i: usize = 0;
                while i < MOVES
                    invariant
                        i <= MOVES,
                        counts@.len() == i,
                        forall|j: int| 0 <= j < i ==> counts@[j] == big.count[j],
                    decreases MOVES - i,
                {
                    counts.push(big.count[i]);
                    i += 1;
                }
                assert(counts@ =~= kids.place_counts()) by {
                    assert forall|j: int| 0 <= j < MOVES implies #[trigger] counts@[j]
                        == kids.place_counts()[j] by {
                        assert(kids->Dense_0[j] == big.edge_at(j));
                    }
                }
                match argmax_count(&counts) {
                    Some(k) => k,
                    None => 0,
                }
            },
            ChildrenImpl::Small(small) => {
                proof {
                    lemma_used(small.indices@, 0);
                }
                let mut i: usize = 0;
                while i < SMALL_SIZE
                    invariant
                        i <= SMALL_SIZE,
                        counts@.len() == i,
                        forall|j: int| 0 <= j < i ==> counts@[j] == small.count[j],
                    decreases SMALL_SIZE - i,
                {
                    counts.push(small.count[i]);
                    i += 1;
                }
                assert(counts@ =~= kids.place_counts()) by {
                    assert forall|j: int| 0 <= j < SMALL_SIZE implies #[trigger] counts@[j]
                        == kids.place_counts()[j] by {
                        if j < small.used() {
                            assert(kids->Sparse_0[j].1 == small.edge_at(j));
                        } else {
                            assert(small.indices[j] < 0);
                        }
                    }
                }
                let k: usize = match argmax_count(&counts) {
                    Some(k) => k,
                    None => 0,
                };
                let index: i16 = small.indices[k];
                assert(small.indices[k as int] == index);
                if index < 0 {
                    0
                } else {
                    index as usize
                }
            },
        }
    }

    /// Whether a node is sparse and has an unused slot.
    pub open spec fn has_room(self) -> bool {
        self matches ChildrenImpl::Small(small) && small.used() < SMALL_SIZE
    }

    /// The values that are compared for the largest one: those of the slots of a sparse
    /// node, or those of the moves of a dense one.
    pub open spec fn place_values(self) -> Seq<Single> {
        match self {
            ChildrenImpl::Small(small) => small.value@,
            ChildrenImpl::Big(big) => big.value@.take(MOVES as int),
        }
    }

    /// Returns the index of the child with the largest average value. Where that is the
    /// value of the moves that were never touched, the first of these is returned. A sparse
    /// node without an unused slot does not hold that value, and compares its slots alone.
    pub fn argmax_value(&self) -> (r: usize)
        requires
            self.wf(),
            argmax_single_spec(self.place_values()) is Some,
        ensures
            r < MOVES,
            match self {
                ChildrenImpl::Big(_) => r == argmax_single_spec(self.place_values())->0,
                ChildrenImpl::Small(small) => {
                    let k = argmax_single_spec(self.place_values())->0;
                    if k < small.used() {
                        r == small.indices[k]
                    } else {
                        &&& !self.view().has(r as int)
                        &&& forall|i: int| 0 <= i < r ==> self.view().has(i)
                    }
                },
            },
            forall|v: Single, i: int|
                0 <= i < MOVES && self.vacant(v) && (self.view().has(i) || self.has_room()) && (
                #[trigger] self.view().edge(i, v)).value.is_eligible() ==> self.view().edge(
                    i,
                    v,
                ).value.key_spec() <= self.view().edge(r as int, v).value.key_spec(),
    {
        let ghost kids = self.view();
        let mut values: Vec<Single> = Vec::new();
        proof {
            self.lemma_view_wf();
        }
        match self {
            ChildrenImpl::Big(big) => {
                let mut i: usize = 0;
                while i < MOVES
                    invariant
                        i <= MOVES,
                        values@.len() == i,
                        forall|j: int| 0 <= j < i ==> values@[j] == big.value[j],
                    decreases MOVES - i,
                {
                    values.push(big.value[i]);
                    i += 1;
                }
                assert(values@ =~= self.place_values());
                let r: usize = match argmax_single(&values) {
                    Some(k) => k,
                    None => 0,
                };
                assert forall|v: Single, i: int|
                    0 <= i < MOVES && (
                    #[trigger] kids.edge(i, v)).value.is_eligible() implies kids.edge(
                    i,
                    v,
                ).value.key_spec() <= kids.edge(r as int, v).value.key_spec() by {
                    assert(kids->Dense_0[i] == big.edge_at(i));
                    assert(kids->Dense_0[r as int] == big.edge_at(r as int));
                    assert(values@[i].is_eligible());
                }
                r
            },
            ChildrenImpl::Small(small) => {
                let mut i: usize = 0;
                while i < SMALL_SIZE
                    invariant
                        i <= SMALL_SIZE,
                        values@.len() == i,
                        forall|j: int| 0 <= j < i ==> values@[j] == small.value[j],
                    decreases SMALL_SIZE - i,
                {
                    values.push(small.value[i]);
                    i += 1;
                }
                assert(values@ =~= self.place_values());
                let k: usize = match argmax_single(&values) {
                    Some(k) => k,
                    None => 0,
                };
                proof {
                    lemma_used(small.indices@, 0);
                }
                let index: i16 = small.indices[k];
                assert(small.indices[k as int] == index);
                if index >= 0 {
                    let r: usize = index as usize;
                    proof {
                        assert(kids.slot_holds(k as int, r as int));
                        lemma_slot_of(kids, k as int, r as int);
                        assert forall|v: Single, i: int|
                            0 <= i < MOVES && self.vacant(v) && (kids.has(i) || self.has_room()) && (
                            #[trigger] kids.edge(i, v)).value.is_eligible() implies kids.edge(
                            i,
                            v,
                        ).value.key_spec() <= kids.edge(r as int, v).value.key_spec() by {
                            small.lemma_slot_value(i, v);
                            let j = small.value_slot(i);
                            assert(values@[j].is_eligible());
                        }
                    }
                    r
                } else {
                    let mut r: usize = 0;
                    while r < MOVES
                        invariant
                            r < MOVES,
                            small.wf(),
                            kids == Kids::Sparse(small.slots()),
                            forall|i: int| 0 <= i < r ==> kids.has(i),
                        ensures
                            r < MOVES,
                            !kids.has(r as int),
                            forall|i: int| 0 <= i < r ==> kids.has(i),
                        decreases MOVES - r,
                    {
                        match small.find_index_fast(r) {
                            Some(_) => {},
                            None => {
                                break;
                            },
                        }
                        r += 1;
                        proof {
                            if r == MOVES {
                                small.lemma_view_wf();
                                lemma_not_all_held(kids);
                            }
                        }
                    }
                    assert forall|v: Single, i: int|
                        0 <= i < MOVES && self.vacant(v) && (kids.has(i) || self.has_room()) && (
                        #[trigger] kids.edge(i, v)).value.is_eligible() implies kids.edge(
                        i,
                        v,
                    ).value.key_spec() <= kids.edge(r as int, v).value.key_spec() by {
                        small.lemma_slot_value(i, v);
                        let j = small.value_slot(i);
                        assert(values@[j].is_eligible());
                        assert(small.value[k as int] == v);
                    }
                    r
                }
            },
        }
    }

    /// Returns an iterator over all visited children.
    pub fn nonzero<'a>(&'a self) -> (r: ChildrenNonZeroIter<'a>)
        requires
            self.wf(),
        ensures
            r.wf(),
            r.children == self,
            r.remaining() == self.view().visited_from(0),
            r.remaining().no_duplicates(),
            forall|i: int, value: Single|
                0 <= i < MOVES ==> (#[trigger] self.view().edge(i, value).count > 0
                    <==> r.remaining().contains(i as usize)),
    {
        proof {
            self.lemma_view_wf();
            assert forall|i: int, value: Single| 0 <= i < MOVES implies (
            #[trigger] self.view().edge(i, value).count > 0
                <==> self.view().visited_from(0).contains(i as usize)) by {
                lemma_visited(self.view(), value);
            }
            lemma_visited(self.view(), Single::zero_spec());
        }
        ChildrenNonZeroIter { children: self, index: 0 }
    }
}

/// Iterator over any visited child of a node, in the order in which they are laid out.
pub struct ChildrenNonZeroIter<'a> {
    pub children: &'a ChildrenImpl,
    pub index: usize,
}

impl<'a> ChildrenNonZeroIter<'a> {
    /// The children are laid out as they should be.
    pub open spec fn wf(self) -> bool {
        self.children.wf()
    }

    /// The moves that are still to come.
    pub open spec fn remaining(self) -> Seq<usize> {
        self.children.view().visited_from(self.index as int)
    }

    /// Returns the next visited child, if there is one left.
    pub fn next(&mut self) -> (r: Option<usize>)
        requires
            old(self).wf(),
        ensures
            final(self).wf(),
            final(self).children == old(self).children,
            r is None ==> old(self).remaining().len() == 0 && final(self).remaining().len() == 0,
            r is Some ==> {
                &&& old(self).remaining().len() > 0
                &&& r->0 == old(self).remaining()[0]
                &&& r->0 < MOVES
                &&& final(self).remaining() == old(self).remaining().drop_first()
            },
    {
        let ghost kids = self.children.view();
        let ghost rest = self.remaining();
        let len: usize = match self.children {
            ChildrenImpl::Small(_) => SMALL_SIZE,
            ChildrenImpl::Big(_) => MOVES,
        };
        while self.index < len
            invariant
                self.wf(),
                self.children == old(self).children,
                kids == self.children.view(),
                rest == old(self).remaining(),
                rest == self.remaining(),
                len == match self.children {
                    ChildrenImpl::Small(_) => SMALL_SIZE,
                    ChildrenImpl::Big(_) => MOVES,
                },
            decreases len - self.index,
        {
            let prev: usize = self.index;
            self.index = prev + 1;
            match self.children {
                ChildrenImpl::Small(small) => {
                    proof {
                        lemma_used(small.indices@, 0);
                        if prev < small.used() {
                            assert(kids.edge_at(prev as int) == small.edge_at(prev as int));
                        } else {
                            assert(small.indices[prev as int] < 0);
                        }
                    }
                    if small.count[prev] > 0 {
                        assert(rest.drop_first() =~= kids.visited_from(prev + 1));
                        return Some(small.indices[prev] as usize);
                    }
                },
                ChildrenImpl::Big(big) => {
                    assert(kids.edge_at(prev as int) == big.edge_at(prev as int));
                    if big.count[prev] > 0 {
                        assert(rest.drop_first() =~= kids.visited_from(prev + 1));
                        return Some(prev);
                    }
                },
            }
        }
        None
    }
}

} // verus!
