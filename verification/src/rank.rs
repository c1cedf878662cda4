use vstd::prelude::*;

verus! {

/// The given moves with one more, which comes behind every move with at least as many
/// visits.
pub open spec fn place(counts: Seq<i32>, moves: Seq<usize>, m: usize) -> Seq<usize>
    decreases moves.len(),
{
    if moves.len() == 0 || counts[moves.last() as int] >= counts[m as int] {
        moves.push(m)
    } else {
        place(counts, moves.drop_last(), m).push(moves.last())
    }
}

/// The given moves by decreasing number of visits, those with the same number of visits in
/// the order in which they were given.
pub open spec fn ranked(counts: Seq<i32>, moves: Seq<usize>) -> Seq<usize>
    decreases moves.len(),
{
    if moves.len() == 0 {
        moves
    } else {
        place(counts, ranked(counts, moves.drop_last()), moves.last())
    }
}

/// Whether no move has more visits than one before it.
pub open spec fn is_descending(counts: Seq<i32>, moves: Seq<usize>) -> bool {
    forall|j: int, k: int|
        0 <= j <= k < moves.len() ==> counts[#[trigger] moves[j] as int] >= counts[
        #[trigger] moves[k] as int]
}

/// The moves with exactly `c` visits.
pub open spec fn with_count(counts: Seq<i32>, moves: Seq<usize>, c: i32) -> Seq<usize>
    decreases moves.len(),
{
    if moves.len() == 0 {
        moves
    } else if counts[moves.last() as int] == c {
        with_count(counts, moves.drop_last(), c).push(moves.last())
    } else {
        with_count(counts, moves.drop_last(), c)
    }
}

proof fn lemma_place(counts: Seq<i32>, moves: Seq<usize>, m: usize)
    requires
        is_descending(counts, moves),
    ensures
        is_descending(counts, place(counts, moves, m)),
        place(counts, moves, m).to_multiset() == moves.to_multiset().insert(m),
        place(counts, moves, m).len() == moves.len() + 1,
        forall|k: int|
            0 <= k <= moves.len() ==> #[trigger] place(counts, moves, m)[k] == m || (exists|j: int|
                0 <= j < moves.len() && moves[j] == place(counts, moves, m)[k]),
        forall|c: i32|
            #[trigger] with_count(counts, place(counts, moves, m), c) == if counts[m as int] == c {
                with_count(counts, moves, c).push(m)
            } else {
                with_count(counts, moves, c)
            },
    decreases moves.len(),
{
    broadcast use vstd::seq_lib::group_to_multiset_ensures;

    let next = place(counts, moves, m);
    if moves.len() == 0 || counts[moves.last() as int] >= counts[m as int] {
        assert(next.drop_last() =~= moves);
        assert forall|k: int| 0 <= k <= moves.len() implies #[trigger] next[k] == m || (exists|
            j: int,
        |
            0 <= j < moves.len() && moves[j] == next[k]) by {
            if k < moves.len() {
                assert(moves[k] == next[k]);
            }
        }
        assert forall|j: int, k: int| 0 <= j <= k < next.len() implies counts[
        #[trigger] next[j] as int] >= counts[#[trigger] next[k] as int] by {
            if k == moves.len() && j < k {
                assert(counts[moves[j] as int] >= counts[moves.last() as int]);
            }
        }
    } else {
        let init = moves.drop_last();
        let last = moves.last();
        assert(is_descending(counts, init)) by {
            assert forall|j: int, k: int| 0 <= j <= k < init.len() implies counts[
            #[trigger] init[j] as int] >= counts[#[trigger] init[k] as int] by {
                assert(init[j] == moves[j]);
                assert(init[k] == moves[k]);
            }
        }
        lemma_place(counts, init, m);
        let placed = place(counts, init, m);
        assert(next == placed.push(last));
        assert(next.drop_last() =~= placed);
        assert(init.push(last) =~= moves);
        assert(next.to_multiset() =~= moves.to_multiset().insert(m));
        assert forall|k: int| 0 <= k <= moves.len() implies #[trigger] next[k] == m || (exists|
            j: int,
        |
            0 <= j < moves.len() && moves[j] == next[k]) by {
            if k == moves.len() {
                assert(moves[moves.len() - 1] == next[k]);
            } else if placed[k] != m {
                let j = choose|j: int| 0 <= j < init.len() && init[j] == placed[k];
                assert(moves[j] == next[k]);
            }
        }
        assert forall|j: int, k: int| 0 <= j <= k < next.len() implies counts[
        #[trigger] next[j] as int] >= counts[#[trigger] next[k] as int] by {
            if k == moves.len() && j < k {
                assert(next[j] == placed[j]);
                if placed[j] != m {
                    let i = choose|i: int| 0 <= i < init.len() && init[i] == placed[j];
                    assert(moves[i] == placed[j]);
                    assert(counts[moves[i] as int] >= counts[moves[moves.len() - 1] as int]);
                }
            } else if k < moves.len() {
                assert(next[j] == placed[j]);
                assert(next[k] == placed[k]);
            }
        }
        assert forall|c: i32| #[trigger] with_count(counts, next, c) == if counts[m as int] == c {
            with_count(counts, moves, c).push(m)
        } else {
            with_count(counts, moves, c)
        } by {
            assert(with_count(counts, placed, c) == if counts[m as int] == c {
                with_count(counts, init, c).push(m)
            } else {
                with_count(counts, init, c)
            });
            assert(next.last() == last);
        }
    }
}

/// Ranking moves by their number of visits only reorders them, leaves none with more visits
/// behind one with fewer, and does not reorder those with the same number of visits.
pub proof fn lemma_ranked(counts: Seq<i32>, moves: Seq<usize>)
    ensures
        ranked(counts, moves).to_multiset() == moves.to_multiset(),
        ranked(counts, moves).len() == moves.len(),
        is_descending(counts, ranked(counts, moves)),
        forall|c: i32|
            #[trigger] with_count(counts, ranked(counts, moves), c) == with_count(counts, moves, c),
        forall|k: int|
            0 <= k < moves.len() ==> moves.contains(#[trigger] ranked(counts, moves)[k]),
    decreases moves.len(),
{
    broadcast use vstd::seq_lib::group_to_multiset_ensures;

    if moves.len() > 0 {
        let init = moves.drop_last();
        lemma_ranked(counts, init);
        lemma_place(counts, ranked(counts, init), moves.last());
        assert(init.push(moves.last()) =~= moves);
        assert forall|k: int| 0 <= k < moves.len() implies moves.contains(
            #[trigger] ranked(counts, moves)[k],
        ) by {
            let here = ranked(counts, moves)[k];
            if here != moves.last() {
                let j = choose|j: int|
                    0 <= j < ranked(counts, init).len() && ranked(counts, init)[j] == here;
                assert(init.contains(ranked(counts, init)[j]));
                let i = choose|i: int| 0 <= i < init.len() && init[i] == here;
                assert(moves[i] == here);
            } else {
                assert(moves[moves.len() - 1] == here);
            }
        }
    }
}

/// A move that comes behind every one with at least as many visits stands where the first
/// one with fewer visits stood.
proof fn lemma_place_at(counts: Seq<i32>, moves: Seq<usize>, m: usize, at: int)
    requires
        0 <= at <= moves.len(),
        forall|k: int| at <= k < moves.len() ==> counts[#[trigger] moves[k] as int]
            < counts[m as int],
        at > 0 ==> counts[moves[at - 1] as int] >= counts[m as int],
    ensures
        place(counts, moves, m) == moves.insert(at, m),
    decreases moves.len(),
{
    if at == moves.len() {
        assert(moves.push(m) =~= moves.insert(at, m));
    } else {
        assert(counts[moves[moves.len() - 1] as int] < counts[m as int]);
        let init = moves.drop_last();
        assert forall|k: int| at <= k < init.len() implies counts[#[trigger] init[k] as int]
            < counts[m as int] by {
            assert(init[k] == moves[k]);
        }
        lemma_place_at(counts, init, m, at);
        assert(place(counts, moves, m) =~= moves.insert(at, m));
    }
}

/// Returns the given moves by decreasing number of visits, those with the same number of
/// visits in the order in which they were given.
pub fn rank(counts: &Vec<i32>, moves: &Vec<usize>) -> (r: Vec<usize>)
    requires
        forall|k: int| 0 <= k < moves@.len() ==> #[trigger] moves@[k] < counts@.len(),
    ensures
        r@ == ranked(counts@, moves@),
        r@.len() == moves@.len(),
        r@.to_multiset() == moves@.to_multiset(),
        is_descending(counts@, r@),
        forall|c: i32| #[trigger] with_count(counts@, r@, c) == with_count(counts@, moves@, c),
        forall|k: int| 0 <= k < r@.len() ==> moves@.contains(#[trigger] r@[k]),
{
    let mut out: Vec<usize> = Vec::new();
    let mut i: usize = 0;
    assert(moves@.take(0) =~= Seq::empty());
    while i < moves.len()
        invariant
            i <= moves@.len(),
            forall|k: int| 0 <= k < moves@.len() ==> #[trigger] moves@[k] < counts@.len(),
            out@ == ranked(counts@, moves@.take(i as int)),
        decreases moves@.len() - i,
    {
        let m: usize = moves[i];
        let ghost seen = moves@.take(i as int);
        let ghost next = moves@.take(i + 1);
        proof {
            lemma_ranked(counts@, seen);
            assert(next.drop_last() =~= seen);
            assert forall|k: int| 0 <= k < out@.len() implies #[trigger] out@[k]
                < counts@.len() by {
                assert(seen.contains(ranked(counts@, seen)[k]));
            }
        }
        let mut at: usize = out.len();
        while at > 0 && counts[out[at - 1]] < counts[m]
            invariant
                at <= out@.len(),
                m < counts@.len(),
                forall|k: int| 0 <= k < out@.len() ==> #[trigger] out@[k] < counts@.len(),
                forall|k: int|
                    at <= k < out@.len() ==> counts@[#[trigger] out@[k] as int]
                        < counts@[m as int],
            decreases at,
        {
            at -= 1;
        }
        proof {
            lemma_place_at(counts@, out@, m, at as int);
        }
        out.insert(at, m);
        i += 1;
    }
    assert(moves@.take(i as int) =~= moves@);
    proof {
        lemma_ranked(counts@, moves@);
    }
    out
}

} // verus!
