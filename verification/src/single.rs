use vstd::prelude::*;

verus! {

/// Bit pattern of the smallest value of all.
pub const NEG_INFINITY_BITS: u32 = 0xff80_0000;

/// Bit pattern of one half.
pub const HALF_BITS: u32 = 0x3f00_0000;

/// Bit pattern of `0.09`.
pub const GREEDY_BITS: u32 = 0x3db8_51ec;

/// A single precision number in the binary interchange format of IEEE 754, held as its
/// bit pattern. The tree stores, moves and compares such numbers. It never computes with
/// them: wherever an average or a score is needed, the caller hands in the arithmetic.
#[derive(Clone, Copy, Debug, PartialEq, Eq, Structural)]
pub struct Single {
    pub bits: u32,
}

impl Single {
    /// Whether this pattern is not a number.
    pub open spec fn is_nan_spec(self) -> bool {
        self.bits as int % 0x8000_0000 > 0x7f80_0000
    }

    /// The position of a number on the real line: `a < b` exactly if the key of `a` is
    /// smaller than the key of `b`. Both zeros have the key `0`.
    pub open spec fn key_spec(self) -> int {
        if self.bits >= 0x8000_0000 {
            0x8000_0000 - self.bits
        } else {
            self.bits as int
        }
    }

    /// The position of a pattern in the total order in which all that is not a number is
    /// equal to itself and larger than any number.
    pub open spec fn rank_spec(self) -> int {
        if self.is_nan_spec() {
            0x7f80_0001
        } else {
            self.key_spec()
        }
    }

    /// Whether this is a number other than negative infinity.
    pub open spec fn is_eligible(self) -> bool {
        !self.is_nan_spec() && self.key_spec() > -0x7f80_0000
    }

    /// Zero.
    pub open spec fn zero_spec() -> Single {
        Single { bits: 0 }
    }

    /// One half.
    pub open spec fn half_spec() -> Single {
        Single { bits: HALF_BITS }
    }

    /// Negative infinity.
    pub open spec fn neg_infinity_spec() -> Single {
        Single { bits: NEG_INFINITY_BITS }
    }

    /// Returns the number with the given bit pattern.
    pub fn from_bits(bits: u32) -> (r: Single)
        ensures
            r.bits == bits,
    {
        Single { bits }
    }

    /// Returns the bit pattern of this number.
    pub fn to_bits(self) -> (r: u32)
        ensures
            r == self.bits,
    {
        self.bits
    }

    /// Returns zero.
    pub fn zero() -> (r: Single)
        ensures
            r == Single::zero_spec(),
    {
        Single { bits: 0 }
    }

    /// Returns one half.
    pub fn half() -> (r: Single)
        ensures
            r == Single::half_spec(),
    {
        Single { bits: HALF_BITS }
    }

    /// Returns negative infinity.
    pub fn neg_infinity() -> (r: Single)
        ensures
            r == Single::neg_infinity_spec(),
    {
        Single { bits: NEG_INFINITY_BITS }
    }

    /// Returns whether this pattern is not a number.
    pub fn is_nan(self) -> (r: bool)
        ensures
            r == self.is_nan_spec(),
    {
        self.bits % 0x8000_0000 > 0x7f80_0000
    }

    /// Returns the position of this number on the real line.
    pub fn key(self) -> (r: i64)
        ensures
            r == self.key_spec(),
    {
        if self.bits >= 0x8000_0000 {
            0x8000_0000i64 - self.bits as i64
        } else {
            self.bits as i64
        }
    }

    /// Returns the position of this pattern in the total order of all patterns.
    pub fn rank(self) -> (r: i64)
        ensures
            r == self.rank_spec(),
    {
        if self.is_nan() {
            0x7f80_0001
        } else {
            self.key()
        }
    }

    /// Returns whether both are numbers and this one is at most `other`.
    pub fn at_most(self, other: Single) -> (r: bool)
        ensures
            r == (!self.is_nan_spec() && !other.is_nan_spec() && self.key_spec()
                <= other.key_spec()),
    {
        !self.is_nan() && !other.is_nan() && self.key() <= other.key()
    }
}

/// Whether `m` is the first index of the largest number in `s`, negative infinity left out.
pub open spec fn is_argmax_single(s: Seq<Single>, m: int) -> bool {
    &&& 0 <= m < s.len()
    &&& s[m].is_eligible()
    &&& forall|i: int|
        0 <= i < s.len() && (#[trigger] s[i]).is_eligible() ==> s[i].key_spec() <= s[m].key_spec()
    &&& forall|i: int|
        0 <= i < m && (#[trigger] s[i]).is_eligible() ==> s[i].key_spec() < s[m].key_spec()
}

/// The first index of the largest number in `s`, if any element is a number other than
/// negative infinity.
pub open spec fn argmax_single_spec(s: Seq<Single>) -> Option<int> {
    if exists|m: int| is_argmax_single(s, m) {
        Some(choose|m: int| is_argmax_single(s, m))
    } else {
        None
    }
}

/// A sequence has at most one first index of its largest number.
pub proof fn lemma_argmax_single_unique(s: Seq<Single>, a: int, b: int)
    requires
        is_argmax_single(s, a),
        is_argmax_single(s, b),
    ensures
        a == b,
{
    assert(s[a].key_spec() <= s[b].key_spec());
    assert(s[b].key_spec() <= s[a].key_spec());
}

/// A sequence in which some element is a number other than negative infinity has a first index
/// of its largest number.
pub proof fn lemma_argmax_single(s: Seq<Single>)
    ensures
        (exists|i: int| 0 <= i < s.len() && (#[trigger] s[i]).is_eligible())
            <==> argmax_single_spec(s) is Some,
        argmax_single_spec(s) matches Some(m) ==> is_argmax_single(s, m),
    decreases s.len(),
{
    if let Some(m) = argmax_single_spec(s) {
        assert(is_argmax_single(s, m));
        assert(s[m].is_eligible());
    }
    if exists|i: int| 0 <= i < s.len() && (#[trigger] s[i]).is_eligible() {
        let init = s.drop_last();
        let n = s.len() - 1;
        lemma_argmax_single(init);
        assert(forall|i: int| 0 <= i < n ==> #[trigger] s[i] == init[i]);
        match argmax_single_spec(init) {
            Some(m) => {
                assert(s[m] == init[m]);
                assert forall|i: int| 0 <= i < n && (#[trigger] s[i]).is_eligible() implies
                    s[i].key_spec() <= s[m].key_spec() && (i < m ==> s[i].key_spec()
                        < s[m].key_spec()) by {
                    assert(init[i].is_eligible());
                }
                if s[n].is_eligible() && s[m].key_spec() < s[n].key_spec() {
                    assert(is_argmax_single(s, n));
                } else {
                    assert(is_argmax_single(s, m));
                }
            },
            None => {
                assert forall|i: int| 0 <= i < n implies !(#[trigger] s[i]).is_eligible() by {
                    assert(!init[i].is_eligible());
                }
                assert(is_argmax_single(s, n));
            },
        }
    }
}

/// Returns the first index of the largest number in the given array. Elements that are not
/// a number, or that are negative infinity, are never picked.
pub fn argmax_single(array: &Vec<Single>) -> (r: Option<usize>)
    ensures
        r is Some == argmax_single_spec(array@) is Some,
        r is Some ==> r->0 == argmax_single_spec(array@)->0,
        r is Some ==> is_argmax_single(array@, r->0 as int),
        r is None ==> forall|i: int| 0 <= i < array@.len() ==> !(#[trigger] array@[i]).is_eligible(),
{
    let mut best: Option<usize> = None;
    let mut i: usize = 0;
    while i < array.len()
        invariant
            i <= array@.len(),
            match best {
                Some(m) => is_argmax_single(array@.take(i as int), m as int),
                None => forall|j: int| 0 <= j < i ==> !(#[trigger] array@[j]).is_eligible(),
            },
        decreases array@.len() - i,
    {
        let ghost seen = array@.take(i as int);
        let ghost next = array@.take(i + 1);
        let here: Single = array[i];
        assert(forall|j: int| 0 <= j < i ==> seen[j] == next[j]);
        assert(next[i as int] == here);
        if !here.is_nan() && here.key() > -0x7f80_0000 {
            match best {
                None => {
                    best = Some(i);
                    assert forall|j: int| 0 <= j < i implies !(#[trigger] next[j]).is_eligible() by {
                        assert(next[j] == array@[j]);
                    }
                    assert(is_argmax_single(next, i as int));
                },
                Some(m) => {
                    assert(array[m as int] == seen[m as int]);
                    if array[m].key() < here.key() {
                        best = Some(i);
                        assert(is_argmax_single(next, i as int)) by {
                            assert forall|j: int| 0 <= j < next.len() && (
                            #[trigger] next[j]).is_eligible() implies next[j].key_spec()
                                <= next[i as int].key_spec() by {
                                if j < i {
                                    assert(seen[j].is_eligible());
                                }
                            }
                            assert forall|j: int| 0 <= j < i && (
                            #[trigger] next[j]).is_eligible() implies next[j].key_spec()
                                < next[i as int].key_spec() by {
                                assert(seen[j].is_eligible());
                            }
                        }
                    } else {
                        assert(is_argmax_single(next, m as int)) by {
                            assert forall|j: int| 0 <= j < next.len() && (
                            #[trigger] next[j]).is_eligible() implies next[j].key_spec()
                                <= next[m as int].key_spec() by {
                                if j < i {
                                    assert(seen[j].is_eligible());
                                }
                            }
                            assert forall|j: int| 0 <= j < m && (
                            #[trigger] next[j]).is_eligible() implies next[j].key_spec()
                                < next[m as int].key_spec() by {
                                assert(seen[j].is_eligible());
                            }
                        }
                    }
                },
            }
        } else {
            match best {
                None => {},
                Some(m) => {
                    assert(is_argmax_single(next, m as int)) by {
                        assert(next[m as int] == seen[m as int]);
                        assert forall|j: int| 0 <= j < next.len() && (
                        #[trigger] next[j]).is_eligible() implies next[j].key_spec()
                            <= next[m as int].key_spec() by {
                            assert(seen[j].is_eligible());
                        }
                        assert forall|j: int| 0 <= j < m && (
                        #[trigger] next[j]).is_eligible() implies next[j].key_spec()
                            < next[m as int].key_spec() by {
                            assert(seen[j].is_eligible());
                        }
                    }
                },
            }
        }
        i += 1;
    }
    proof {
        assert(array@.take(i as int) =~= array@);
        match best {
            Some(m) => {
                assert(is_argmax_single(array@, m as int));
                lemma_argmax_single_unique(
                    array@,
                    m as int,
                    choose|x: int| is_argmax_single(array@, x),
                );
            },
            None => {
                assert forall|m: int| !is_argmax_single(array@, m) by {
                    if is_argmax_single(array@, m) {
                        assert(array@[m].is_eligible());
                    }
                }
            },
        }
    }
    best
}

/// Whether `m` is the first index of the largest element of `s`.
pub open spec fn is_argmax_count(s: Seq<i32>, m: int) -> bool {
    &&& 0 <= m < s.len()
    &&& forall|i: int| 0 <= i < s.len() ==> s[i] <= s[m]
    &&& forall|i: int| 0 <= i < m ==> s[i] < s[m]
}

/// The first index of the largest element of `s`.
pub open spec fn argmax_count_spec(s: Seq<i32>) -> int {
    choose|m: int| is_argmax_count(s, m)
}

/// A sequence has at most one first index of its largest element.
pub proof fn lemma_argmax_count_unique(s: Seq<i32>, a: int, b: int)
    requires
        is_argmax_count(s, a),
        is_argmax_count(s, b),
    ensures
        a == b,
{
    assert(s[a] <= s[b]);
    assert(s[b] <= s[a]);
}

/// A sequence that is not empty has a first index of its largest element.
pub proof fn lemma_argmax_count(s: Seq<i32>)
    requires
        s.len() > 0,
    ensures
        is_argmax_count(s, argmax_count_spec(s)),
    decreases s.len(),
{
    let n = s.len() - 1;
    if n == 0 {
        assert(is_argmax_count(s, 0));
    } else {
        let init = s.drop_last();
        lemma_argmax_count(init);
        let m = argmax_count_spec(init);
        assert(forall|i: int| 0 <= i < n ==> s[i] == init[i]);
        if s[n] > s[m] {
            assert(is_argmax_count(s, n));
        } else {
            assert(is_argmax_count(s, m));
        }
    }
}

/// Returns the first index of the largest element in the given array, or `None` if the
/// array is empty.
pub fn argmax_count(array: &Vec<i32>) -> (r: Option<usize>)
    ensures
        r is None == (array@.len() == 0),
        r is Some ==> is_argmax_count(array@, r->0 as int),
        r is Some ==> r->0 == argmax_count_spec(array@),
{
    if array.len() == 0 {
        return None;
    }
    let mut best: usize = 0;
    let mut i: usize = 1;
    while i < array.len()
        invariant
            best < i <= array@.len(),
            forall|j: int| 0 <= j < i ==> array@[j] <= array@[best as int],
            forall|j: int| 0 <= j < best ==> array@[j] < array@[best as int],
        decreases array@.len() - i,
    {
        if array[best] < array[i] {
            best = i;
        }
        i += 1;
    }
    proof {
        assert(is_argmax_count(array@, best as int));
        lemma_argmax_count_unique(
            array@,
            best as int,
            choose|x: int| is_argmax_count(array@, x),
        );
    }
    Some(best)
}

} // verus!
