use crate::rounding;
use crate::single;
use crate::single::{Single, EPSILON_BITS, ONE_BITS};
use vstd::prelude::*;

verus! {

pub open spec fn difference(a: [Single; 3], b: [Single; 3]) -> [Single; 3] {
    [a[0].difference(b[0]), a[1].difference(b[1]), a[2].difference(b[2])]
}

pub open spec fn sum(a: [Single; 3], b: [Single; 3]) -> [Single; 3] {
    [a[0].sum(b[0]), a[1].sum(b[1]), a[2].sum(b[2])]
}

pub open spec fn componentwise_product(a: [Single; 3], b: [Single; 3]) -> [Single; 3] {
    [a[0].product(b[0]), a[1].product(b[1]), a[2].product(b[2])]
}

pub open spec fn scaled(a: [Single; 3], s: Single) -> [Single; 3] {
    [a[0].product(s), a[1].product(s), a[2].product(s)]
}

/// The dot product, its three products added from the first on.
pub open spec fn dot(a: [Single; 3], b: [Single; 3]) -> Single {
    a[0].product(b[0]).sum(a[1].product(b[1])).sum(a[2].product(b[2]))
}

pub open spec fn cross_product(a: [Single; 3], b: [Single; 3]) -> [Single; 3] {
    [
        a[1].product(b[2]).difference(a[2].product(b[1])),
        a[2].product(b[0]).difference(a[0].product(b[2])),
        a[0].product(b[1]).difference(a[1].product(b[0])),
    ]
}

pub open spec fn length(a: [Single; 3]) -> Single {
    dot(a, a).square_root()
}

pub open spec fn squared_distance(a: [Single; 3], b: [Single; 3]) -> Single {
    dot(difference(a, b), difference(a, b))
}

pub open spec fn finite(a: [Single; 3]) -> bool {
    a[0].finite() && a[1].finite() && a[2].finite()
}

/// Whether a vector has a direction: its length is finite and above 2^-23.
pub open spec fn has_direction(a: [Single; 3]) -> bool {
    length(a).finite() && !length(a).less_or_same(Single { bits: EPSILON_BITS })
}

/// The vector times the reciprocal of its length.
pub open spec fn direction(a: [Single; 3]) -> [Single; 3] {
    scaled(a, Single::one().quotient(length(a)))
}

pub fn v_sub(a: [Single; 3], b: [Single; 3]) -> (r: [Single; 3])
    ensures
        r == difference(a, b),
{
    [a[0].minus(b[0]), a[1].minus(b[1]), a[2].minus(b[2])]
}

pub fn v_add(a: [Single; 3], b: [Single; 3]) -> (r: [Single; 3])
    ensures
        r == sum(a, b),
{
    [a[0].plus(b[0]), a[1].plus(b[1]), a[2].plus(b[2])]
}

pub fn v_mul_components(a: [Single; 3], b: [Single; 3]) -> (r: [Single; 3])
    ensures
        r == componentwise_product(a, b),
{
    [a[0].times(b[0]), a[1].times(b[1]), a[2].times(b[2])]
}

pub fn v_scale(a: [Single; 3], s: Single) -> (r: [Single; 3])
    ensures
        r == scaled(a, s),
{
    [a[0].times(s), a[1].times(s), a[2].times(s)]
}

pub fn v_dot(a: [Single; 3], b: [Single; 3]) -> (r: Single)
    ensures
        r == dot(a, b),
{
    a[0].times(b[0]).plus(a[1].times(b[1])).plus(a[2].times(b[2]))
}

pub fn cross(a: [Single; 3], b: [Single; 3]) -> (r: [Single; 3])
    ensures
        r == cross_product(a, b),
{
    [
        a[1].times(b[2]).minus(a[2].times(b[1])),
        a[2].times(b[0]).minus(a[0].times(b[2])),
        a[0].times(b[1]).minus(a[1].times(b[0])),
    ]
}

pub fn v_length(a: [Single; 3]) -> (r: Single)
    ensures
        r == length(a),
{
    v_dot(a, a).sqrt()
}

pub fn v_squared_distance(a: [Single; 3], b: [Single; 3]) -> (r: Single)
    ensures
        r == squared_distance(a, b),
{
    let d = v_sub(a, b);
    v_dot(d, d)
}

pub fn v_is_finite(a: [Single; 3]) -> (r: bool)
    ensures
        r == finite(a),
{
    a[0].is_finite() && a[1].is_finite() && a[2].is_finite()
}

/// The unit vector along `a`, or `None` where `a` is zero, degenerate or not
/// finite.
pub fn v_normalize(a: [Single; 3]) -> (r: Option<[Single; 3]>)
    ensures
        r == if has_direction(a) {
            Some(direction(a))
        } else {
            None
        },
{
    let len = v_length(a);
    if !len.is_finite() || len.at_most(Single { bits: EPSILON_BITS }) {
        None
    } else {
        Some(v_scale(a, Single { bits: ONE_BITS }.divided_by(len)))
    }
}

pub proof fn lemma_finite_component(a: [Single; 3], axis: int)
    requires
        finite(a),
        0 <= axis < 3,
    ensures
        a[axis].finite(),
{
    assert(axis == 0 || axis == 1 || axis == 2);
}

/// Squared distances between finite points are numbers, and never negative.
pub proof fn law_squared_distance_is_ordered(a: [Single; 3], b: [Single; 3])
    requires
        finite(a),
        finite(b),
    ensures
        !squared_distance(a, b).nan(),
        !squared_distance(a, b).negative(),
{
    lemma_squared_distance_at_least(a, b, 0, a[0]);
}

/// The computed distance to a point is at least the computed distance to any
/// axis-aligned plane that the point lies on or beyond.
pub proof fn lemma_squared_distance_at_least(
    point: [Single; 3],
    query: [Single; 3],
    axis: int,
    plane: Single,
)
    requires
        finite(point),
        finite(query),
        plane.finite(),
        0 <= axis < 3,
        query[axis].key() >= plane.key() >= point[axis].key()
            || query[axis].key() <= plane.key() <= point[axis].key()
            || plane == point[axis],
    ensures
        ({
            let gap = query[axis].difference(plane);
            &&& gap.product(gap).index() <= squared_distance(point, query).index()
            &&& squared_distance(point, query).index() <= rounding::INFINITY_INDEX
            &&& !gap.product(gap).negative()
            &&& !squared_distance(point, query).negative()
        }),
{
    let d = difference(point, query);
    assert forall|i: int| 0 <= i < 3 implies (#[trigger] d[i]).index() <= rounding::INFINITY_INDEX by {
        single::law_difference_grows_with_distance(point[i], query[i], query[i]);
    }
    let x = d[0].product(d[0]);
    let y = d[1].product(d[1]);
    let z = d[2].product(d[2]);
    single::law_square_grows_with_magnitude(d[0], d[0]);
    single::law_square_grows_with_magnitude(d[1], d[1]);
    single::law_square_grows_with_magnitude(d[2], d[2]);
    single::law_sum_no_smaller_than_parts(x, y);
    single::law_sum_no_smaller_than_parts(x.sum(y), z);
    let gap = query[axis].difference(plane);
    let reach = query[axis].difference(point[axis]);
    if plane == point[axis] {
        single::law_difference_grows_with_distance(query[axis], plane, plane);
    } else {
        single::law_difference_grows_with_distance(query[axis], plane, point[axis]);
    }
    single::lemma_difference_symmetric(query[axis], point[axis]);
    single::law_square_grows_with_magnitude(gap, d[axis]);
    assert(d[axis].index() == reach.index());
}

} // verus!
