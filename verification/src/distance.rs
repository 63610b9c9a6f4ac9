//! Distances between vectors.
//!
//! A distance is an `i32`: the place of a single-precision number in the order of
//! all such numbers, which is its bit pattern read as sign and magnitude.

use crate::types::DistanceMetric;
use vstd::prelude::*;

verus! {

/// The place of the largest finite single-precision number. A distance that cannot
/// be measured counts as this far.
pub const FARTHEST: i32 = 0x7F7F_FFFF;

/// The place in the order of single-precision numbers of the one with these bits. Both
/// zeros are at zero.
pub open spec fn place_of(bits: u32) -> int {
    if bits < 0x8000_0000 {
        bits as int
    } else {
        0x8000_0000 - bits
    }
}

/// The distance whose single-precision number has these bits.
pub fn distance_from_bits(bits: u32) -> (distance: i32)
    ensures
        distance == place_of(bits),
{
    if bits < 0x8000_0000 {
        bits as i32
    } else {
        -((bits - 0x8000_0000) as i32)
    }
}

/// The bits of a distance as a single-precision number. Zero gets the positive sign.
pub fn bits_from_distance(distance: i32) -> (bits: u32)
    requires
        distance > i32::MIN,
    ensures
        place_of(bits) == distance,
        bits < 0x8000_0000 <==> distance >= 0,
{
    if distance >= 0 {
        distance as u32
    } else {
        (-distance) as u32 + 0x8000_0000
    }
}

/// A distance stands for the bits that it was made from, but for the sign of zero.
pub proof fn law_bits_round_trip(bits: u32, back: u32)
    requires
        place_of(back) == place_of(bits),
    ensures
        back == bits || place_of(bits) == 0,
{
}

/// `calculate` gives `result` for vectors with these components.
pub open spec fn gives<T, F: Fn(&[T], &[T], DistanceMetric) -> Option<i32>>(
    calculate: F,
    a: Seq<T>,
    b: Seq<T>,
    metric: DistanceMetric,
    result: Option<i32>,
) -> bool {
    exists|x: &[T], y: &[T]|
        x@ == a && y@ == b && #[trigger] call_ensures(calculate, (x, y, metric), result)
}

/// `calculate` can be called on any two vectors, and its result depends on their
/// components and the metric alone.
pub open spec fn is_measure<T, F: Fn(&[T], &[T], DistanceMetric) -> Option<i32>>(
    calculate: F,
) -> bool {
    &&& forall|x: &[T], y: &[T], metric: DistanceMetric|
        #[trigger] call_requires(calculate, (x, y, metric))
    &&& forall|a: Seq<T>, b: Seq<T>, metric: DistanceMetric, r: Option<i32>, s: Option<i32>|
        #[trigger] gives(calculate, a, b, metric, r) && #[trigger] gives(calculate, a, b, metric, s)
            ==> r == s
}

/// The distance that `calculate` measures between `a` and `b`.
pub open spec fn measured<T, F: Fn(&[T], &[T], DistanceMetric) -> Option<i32>>(
    calculate: F,
    a: Seq<T>,
    b: Seq<T>,
    metric: DistanceMetric,
) -> i32 {
    match choose|result: Option<i32>| gives(calculate, a, b, metric, result) {
        Some(distance) => distance,
        None => FARTHEST,
    }
}

/// Measures the distance between `a` and `b`.
pub fn measure<T, F: Fn(&[T], &[T], DistanceMetric) -> Option<i32>>(
    calculate: &F,
    a: &[T],
    b: &[T],
    metric: DistanceMetric,
) -> (distance: i32)
    requires
        is_measure::<T, F>(*calculate),
    ensures
        distance == measured(*calculate, a@, b@, metric),
{
    let result = calculate(a, b, metric);
    assert(gives(*calculate, a@, b@, metric, result));
    match result {
        Some(distance) => distance,
        None => FARTHEST,
    }
}

/// A function that can be called on any two vectors and whose result depends on their
/// components and the metric alone can measure distances.
pub proof fn law_any_function_of_components_is_a_measure<
    T,
    F: Fn(&[T], &[T], DistanceMetric) -> Option<i32>,
>(calculate: F)
    requires
        forall|x: &[T], y: &[T], metric: DistanceMetric|
            #[trigger] call_requires(calculate, (x, y, metric)),
        forall|
            x: &[T],
            y: &[T],
            v: &[T],
            w: &[T],
            metric: DistanceMetric,
            r: Option<i32>,
            s: Option<i32>,
        |
            x@ == v@ && y@ == w@ && #[trigger] call_ensures(calculate, (x, y, metric), r)
                && #[trigger] call_ensures(calculate, (v, w, metric), s) ==> r == s,
    ensures
        is_measure::<T, F>(calculate),
{
    assert forall|a: Seq<T>, b: Seq<T>, metric: DistanceMetric, r: Option<i32>, s: Option<i32>|
        #[trigger] gives(calculate, a, b, metric, r) && #[trigger] gives(
            calculate,
            a,
            b,
            metric,
            s,
        ) implies r == s by {
        let (x, y) = choose|x: &[T], y: &[T]|
            x@ == a && y@ == b && #[trigger] call_ensures(calculate, (x, y, metric), r);
        let (v, w) = choose|v: &[T], w: &[T]|
            v@ == a && w@ == b && #[trigger] call_ensures(calculate, (v, w, metric), s);
        assert(call_ensures(calculate, (x, y, metric), r));
        assert(call_ensures(calculate, (v, w, metric), s));
    }
}

/// Whatever distance the given function returns for two vectors, by whatever metric, is
/// the distance that is measured, as it is. Two vectors for which it returns none count
/// as far apart as the largest finite number.
pub proof fn law_measured_distance_is_the_given_one<
    T,
    F: Fn(&[T], &[T], DistanceMetric) -> Option<i32>,
>(calculate: F, x: &[T], y: &[T], metric: DistanceMetric, result: Option<i32>)
    requires
        forall|
            x: &[T],
            y: &[T],
            v: &[T],
            w: &[T],
            metric: DistanceMetric,
            r: Option<i32>,
            s: Option<i32>,
        |
            x@ == v@ && y@ == w@ && #[trigger] call_ensures(calculate, (x, y, metric), r)
                && #[trigger] call_ensures(calculate, (v, w, metric), s) ==> r == s,
        call_ensures(calculate, (x, y, metric), result),
    ensures
        result is Some ==> measured(calculate, x@, y@, metric) == result->0,
        result is None ==> measured(calculate, x@, y@, metric) == 0x7F7F_FFFF,
{
    assert(gives(calculate, x@, y@, metric, result));
    let chosen = choose|r: Option<i32>| gives(calculate, x@, y@, metric, r);
    assert(gives(calculate, x@, y@, metric, chosen));
    let (v, w) = choose|v: &[T], w: &[T]|
        v@ == x@ && w@ == y@ && #[trigger] call_ensures(calculate, (v, w, metric), chosen);
    assert(call_ensures(calculate, (v, w, metric), chosen));
}

/// Distances are ordered as single-precision numbers are: without the sign bit a larger
/// pattern is a larger number, and the sign bit turns a number into its negative.
pub proof fn law_places_are_ordered_like_numbers(a: u32, b: u32)
    ensures
        a < 0x8000_0000 ==> place_of(a) == a,
        a < 0x8000_0000 ==> place_of((a + 0x8000_0000) as u32) == -place_of(a),
        a < b < 0x8000_0000 ==> place_of(a) < place_of(b),
        0x8000_0000 <= a < b ==> place_of(a) > place_of(b),
        a < 0x8000_0000 <= b ==> place_of(a) >= place_of(b),
{
}

} // verus!
