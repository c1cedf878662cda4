//! What the search asks of the arithmetic that it is handed. Each operation has to accept
//! every argument that a tree can give rise to, and to return the same number for the same
//! arguments.

use crate::single::Single;
use vstd::prelude::*;

verus! {

/// Whether this can be a number of visits, virtual ones included: a sum of two counters.
pub open spec fn is_visits(n: i64) -> bool {
    -0x1_0000_0000 <= n <= 0x1_0000_0000
}

/// What `explore` returns for the given value and prior of a move, number of visits of the
/// node, and number of visits of the move.
pub open spec fn explored<E: Fn(Single, Single, i64, i64) -> Single>(
    explore: E,
    value: Single,
    prior: Single,
    n: i64,
    count: i64,
) -> Single {
    choose|r: Single| call_ensures(explore, (value, prior, n, count), r)
}

/// Whether `explore` is a function of its arguments, defined for all numbers of visits.
pub open spec fn is_explore<E: Fn(Single, Single, i64, i64) -> Single>(explore: E) -> bool {
    &&& forall|value: Single, prior: Single, n: i64, count: i64|
        is_visits(n) && is_visits(count) ==> #[trigger] call_requires(
            explore,
            (value, prior, n, count),
        )
    &&& forall|value: Single, prior: Single, n: i64, count: i64, r: Single|
        is_visits(n) && is_visits(count) && #[trigger] call_ensures(
            explore,
            (value, prior, n, count),
            r,
        ) ==> r == explored(
            explore,
            value,
            prior,
            n,
            count,
        )
}

/// What `reduce` returns for the given value of a move and number of visits of the node.
pub open spec fn reduced<R: Fn(Single, i64) -> Single>(reduce: R, value: Single, n: i64) -> Single {
    choose|r: Single| call_ensures(reduce, (value, n), r)
}

/// Whether `reduce` is a function of its arguments, defined for all numbers of visits.
pub open spec fn is_reduce<R: Fn(Single, i64) -> Single>(reduce: R) -> bool {
    &&& forall|value: Single, n: i64|
        is_visits(n) ==> #[trigger] call_requires(reduce, (value, n))
    &&& forall|value: Single, n: i64, r: Single|
        is_visits(n) && #[trigger] call_ensures(reduce, (value, n), r) ==> r == reduced(
            reduce,
            value,
            n,
        )
}

/// What `complement` returns for the given value.
pub open spec fn complemented<C: Fn(Single) -> Single>(complement: C, value: Single) -> Single {
    choose|r: Single| call_ensures(complement, (value,), r)
}

/// Whether `complement` is a function of its argument, defined everywhere.
pub open spec fn is_complement<C: Fn(Single) -> Single>(complement: C) -> bool {
    &&& forall|value: Single| call_requires(complement, (value,))
    &&& forall|value: Single, r: Single|
        call_ensures(complement, (value,), r) ==> r == complemented(complement, value)
}

/// What `average` returns for the given average, next value, and number of values.
pub open spec fn averaged<A: Fn(Single, Single, i32) -> Single>(
    average: A,
    prev: Single,
    value: Single,
    count: i32,
) -> Single {
    choose|r: Single| call_ensures(average, (prev, value, count), r)
}

/// Whether `average` is a function of its arguments, defined for one value or more.
pub open spec fn is_average<A: Fn(Single, Single, i32) -> Single>(average: A) -> bool {
    &&& forall|prev: Single, value: Single, count: i32|
        count > 0 ==> #[trigger] call_requires(average, (prev, value, count))
    &&& forall|prev: Single, value: Single, count: i32, r: Single|
        count > 0 && #[trigger] call_ensures(average, (prev, value, count), r) ==> r == averaged(
            average,
            prev,
            value,
            count,
        )
}

/// What `accumulate` returns for the given sum, number of visits of a move, and value of the
/// move.
pub open spec fn accumulated<F: Fn(Single, i32, Single) -> Single>(
    accumulate: F,
    so_far: Single,
    count: i32,
    value: Single,
) -> Single {
    choose|r: Single| call_ensures(accumulate, (so_far, count, value), r)
}

/// Whether `accumulate` is a function of its arguments, defined everywhere.
pub open spec fn is_accumulate<F: Fn(Single, i32, Single) -> Single>(accumulate: F) -> bool {
    &&& forall|so_far: Single, count: i32, value: Single|
        call_requires(accumulate, (so_far, count, value))
    &&& forall|so_far: Single, count: i32, value: Single, r: Single|
        call_ensures(accumulate, (so_far, count, value), r) ==> r == accumulated(
            accumulate,
            so_far,
            count,
            value,
        )
}

/// What `mean` returns for the given sum and number of visits.
pub open spec fn mean_of<M: Fn(Single, i32) -> Single>(mean: M, total: Single, n: i32) -> Single {
    choose|r: Single| call_ensures(mean, (total, n), r)
}

/// Whether `mean` is a function of its arguments, defined everywhere.
pub open spec fn is_mean<M: Fn(Single, i32) -> Single>(mean: M) -> bool {
    &&& forall|total: Single, n: i32| call_requires(mean, (total, n))
    &&& forall|total: Single, n: i32, r: Single|
        call_ensures(mean, (total, n), r) ==> r == mean_of(mean, total, n)
}

} // verus!
