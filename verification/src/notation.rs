//! What is asked of the functions that turn numbers and coordinates into text. Each has to
//! accept the arguments that are asked for, and to return the same text for the same arguments.

use crate::single::Single;
use vstd::prelude::*;

verus! {

/// What `coordinate` returns for the given point.
pub open spec fn named<S: Fn(usize, usize) -> String>(
    coordinate: S,
    x: usize,
    y: usize,
) -> Seq<char> {
    (choose|r: String| call_ensures(coordinate, (x, y), r))@
}

/// Whether `coordinate` is a function of its arguments, defined on the board.
pub open spec fn is_coordinate<S: Fn(usize, usize) -> String>(coordinate: S) -> bool {
    &&& forall|x: usize, y: usize|
        x < 19 && y < 19 ==> #[trigger] call_requires(coordinate, (x, y))
    &&& forall|x: usize, y: usize, r: String|
        x < 19 && y < 19 && #[trigger] call_ensures(coordinate, (x, y), r) ==> r@ == named(
            coordinate,
            x,
            y,
        )
}

/// What `number` returns for the given number and number of decimals.
pub open spec fn written<N: Fn(Single, usize) -> String>(
    number: N,
    value: Single,
    decimals: usize,
) -> Seq<char> {
    (choose|r: String| call_ensures(number, (value, decimals), r))@
}

/// Whether `number` is a function of its arguments, defined for up to four decimals.
pub open spec fn is_number<N: Fn(Single, usize) -> String>(number: N) -> bool {
    &&& forall|value: Single, decimals: usize|
        decimals <= 4 ==> #[trigger] call_requires(number, (value, decimals))
    &&& forall|value: Single, decimals: usize, r: String|
        decimals <= 4 && #[trigger] call_ensures(number, (value, decimals), r) ==> r@ == written(
            number,
            value,
            decimals,
        )
}

/// What `percent` returns for the given number, least width and number of decimals.
pub open spec fn percentage<P: Fn(Single, usize, usize) -> String>(
    percent: P,
    value: Single,
    width: usize,
    decimals: usize,
) -> Seq<char> {
    (choose|r: String| call_ensures(percent, (value, width, decimals), r))@
}

/// Whether `percent` is a function of its arguments, defined for a width of up to five and up
/// to two decimals.
pub open spec fn is_percent<P: Fn(Single, usize, usize) -> String>(percent: P) -> bool {
    &&& forall|value: Single, width: usize, decimals: usize|
        width <= 5 && decimals <= 2 ==> #[trigger] call_requires(
            percent,
            (value, width, decimals),
        )
    &&& forall|value: Single, width: usize, decimals: usize, r: String|
        width <= 5 && decimals <= 2 && #[trigger] call_ensures(
            percent,
            (value, width, decimals),
            r,
        ) ==> r@ == percentage(
            percent,
            value,
            width,
            decimals,
        )
}

} // verus!
