use crate::accuracy;
use crate::clothing_deformer;
use crate::clothing_deformer::ClothAnchor;
use crate::single;
use crate::single::Single;
use crate::vector;
use crate::vector_accuracy;
use crate::vertex::SkinnedVertex;
use vstd::prelude::*;

verus! {

/// How far `position` is from the tangent plane through `base`, in real numbers.
pub open spec fn exact_distance(
    position: [Single; 3],
    base: [Single; 3],
    normal: [Single; 3],
) -> real {
    (position[0].value() - base[0].value()) * normal[0].value()
        + (position[1].value() - base[1].value()) * normal[1].value()
        + (position[2].value() - base[2].value()) * normal[2].value()
}

/// A finite number that is no larger than `reach`.
pub open spec fn number_within(x: Single, reach: real) -> bool {
    x.finite() && accuracy::size(x.value()) <= reach
}

/// A point with no coordinate beyond `reach`.
pub open spec fn point_within(p: [Single; 3], reach: real) -> bool {
    number_within(p[0], reach) && number_within(p[1], reach) && number_within(p[2], reach)
}

/// A reach that is neither so large that arithmetic overflows (2^119 at most) nor so
/// small that the smallest step counts (2^-109 at least).
pub open spec fn sound_reach(reach: real) -> bool {
    &&& 0x100 as real * reach <= accuracy::limit()
    &&& 0x100_0000_0000 as real * accuracy::smallest_step() <= reach
}

/// What rounding does to a result of up to `top` is at most `error`, where `error`
/// leaves room for it.
proof fn lemma_error(exact: real, top: real, error: real, reach: real)
    requires
        sound_reach(reach),
        accuracy::size(exact) <= top,
        top <= 16 as real * reach,
        0x100_0000 as real * error >= top + reach / 16 as real,
    ensures
        accuracy::size(exact) <= accuracy::limit(),
        accuracy::slack(exact) <= error,
{
    vector_accuracy::lemma_step_is_tiny();
    let u = accuracy::roundoff();
    let h = accuracy::smallest_step();
    let m = accuracy::size(exact);
    assert(u * m + h <= error) by (nonlinear_arith)
        requires
            u == 1 as real / 0x100_0000 as real,
            m <= top,
            0x100_0000_0000 as real * h <= reach,
            0x100_0000 as real * error >= top + reach / 16 as real,
            reach >= 0 as real,
    ;
}

/// A sum of up to `top` is off by `error` at most.
pub(crate) proof fn lemma_sum_error(a: Single, b: Single, top: real, error: real, reach: real)
    requires
        a.finite(),
        b.finite(),
        sound_reach(reach),
        accuracy::size(a.value() + b.value()) <= top,
        top <= 16 as real * reach,
        0x100_0000 as real * error >= top + reach / 16 as real,
    ensures
        a.sum(b).finite(),
        accuracy::apart(a.sum(b).value(), a.value() + b.value()) <= error,
{
    lemma_error(a.value() + b.value(), top, error, reach);
    accuracy::law_sum_is_accurate(a, b);
}

/// A difference of up to `top` is off by `error` at most.
pub(crate) proof fn lemma_difference_error(a: Single, b: Single, top: real, error: real, reach: real)
    requires
        a.finite(),
        b.finite(),
        sound_reach(reach),
        accuracy::size(a.value() - b.value()) <= top,
        top <= 16 as real * reach,
        0x100_0000 as real * error >= top + reach / 16 as real,
    ensures
        a.difference(b).finite(),
        accuracy::apart(a.difference(b).value(), a.value() - b.value()) <= error,
{
    lemma_error(a.value() - b.value(), top, error, reach);
    accuracy::law_difference_is_accurate(a, b);
}

/// A product of up to `top` is off by `error` at most.
pub(crate) proof fn lemma_product_error(a: Single, b: Single, top: real, error: real, reach: real)
    requires
        a.finite(),
        b.finite(),
        sound_reach(reach),
        accuracy::size(a.value() * b.value()) <= top,
        top <= 16 as real * reach,
        0x100_0000 as real * error >= top + reach / 16 as real,
    ensures
        a.product(b).finite(),
        accuracy::apart(a.product(b).value(), a.value() * b.value()) <= error,
{
    lemma_error(a.value() * b.value(), top, error, reach);
    accuracy::law_product_is_accurate(a, b);
}

pub(crate) proof fn lemma_product_size(x: real, x_max: real, y: real, y_max: real)
    requires
        accuracy::size(x) <= x_max,
        accuracy::size(y) <= y_max,
    ensures
        accuracy::size(x * y) <= x_max * y_max,
{
    let p = accuracy::size(x);
    let q = accuracy::size(y);
    vector_accuracy::lemma_multiply_bounds(p, x_max, q, y_max);
    let z = x * y;
    assert(accuracy::size(z) == p * q) by (nonlinear_arith)
        requires
            z == x * y,
            p == if x < 0 as real { -x } else { x },
            q == if y < 0 as real { -y } else { y },
            accuracy::size(z) == if z < 0 as real { -z } else { z },
    ;
}

/// One term of a signed distance.
proof fn lemma_distance_term(p: Single, b: Single, n: Single, reach: real, unit: real)
    requires
        sound_reach(reach),
        0x100_0000 as real * unit == reach,
        number_within(p, reach),
        number_within(b, reach),
        n.finite(),
        16 as real * accuracy::size(n.value()) <= 17 as real,
    ensures
        ({
            let got = p.difference(b).product(n);
            let exact = (p.value() - b.value()) * n.value();
            &&& got.finite()
            &&& 16 as real * accuracy::size(got.value()) <= 37 as real * reach
            &&& 16 as real * accuracy::apart(got.value(), exact) <= 73 as real * unit
        }),
{
    vector_accuracy::lemma_step_is_tiny();
    let d = p.value() - b.value();
    lemma_difference_error(p, b, 2 as real * reach, 33 as real / 16 as real * unit, reach);
    let dd = p.difference(b).value();
    let nn = n.value();
    let n_max = 17 as real / 16 as real;
    let d_max = 33 as real / 16 as real * reach;
    assert(accuracy::size(dd) <= d_max);
    lemma_product_size(dd, d_max, nn, n_max);
    let top = 9 as real / 4 as real * reach;
    assert(d_max * n_max <= top) by (nonlinear_arith)
        requires
            n_max == 17 as real / 16 as real,
            d_max == 33 as real / 16 as real * reach,
            top == 9 as real / 4 as real * reach,
            reach >= 0 as real,
    ;
    lemma_product_error(p.difference(b), n, top, 37 as real / 16 as real * unit, reach);
    // The difference's own error, as the product passes it on.
    let e = dd - d;
    let e_max = 33 as real / 16 as real * unit;
    lemma_product_size(e, e_max, nn, n_max);
    assert(e_max * n_max <= 9 as real / 4 as real * unit) by (nonlinear_arith)
        requires
            n_max == 17 as real / 16 as real,
            e_max == 33 as real / 16 as real * unit,
            unit >= 0 as real,
    ;
    assert(e * nn == dd * nn - d * nn) by (nonlinear_arith)
        requires
            e == dd - d,
    ;
}

/// The computed signed distance is the exact one up to rounding.
pub(crate) proof fn lemma_signed_distance(
    position: [Single; 3],
    base: [Single; 3],
    normal: [Single; 3],
    reach: real,
    unit: real,
)
    requires
        sound_reach(reach),
        0x100_0000 as real * unit == reach,
        point_within(position, reach),
        point_within(base, reach),
        nearly_unit(normal),
    ensures
        ({
            let got = clothing_deformer::signed_distance(position, base, normal);
            &&& got.finite()
            &&& accuracy::size(got.value()) <= 8 as real * reach
            &&& accuracy::apart(got.value(), exact_distance(position, base, normal)) <= 27 as real
                * unit
        }),
{
    lemma_distance_term(position[0], base[0], normal[0], reach, unit);
    lemma_distance_term(position[1], base[1], normal[1], reach, unit);
    lemma_distance_term(position[2], base[2], normal[2], reach, unit);
    let d = vector::difference(position, base);
    lemma_three_terms(
        d[0].product(normal[0]),
        d[1].product(normal[1]),
        d[2].product(normal[2]),
        (position[0].value() - base[0].value()) * normal[0].value(),
        (position[1].value() - base[1].value()) * normal[1].value(),
        (position[2].value() - base[2].value()) * normal[2].value(),
        reach,
        unit,
    );
}

/// The terms of a signed distance, added up.
proof fn lemma_three_terms(
    x: Single,
    y: Single,
    z: Single,
    e0: real,
    e1: real,
    e2: real,
    reach: real,
    unit: real,
)
    requires
        sound_reach(reach),
        0x100_0000 as real * unit == reach,
        x.finite(),
        y.finite(),
        z.finite(),
        16 as real * accuracy::size(x.value()) <= 37 as real * reach,
        16 as real * accuracy::size(y.value()) <= 37 as real * reach,
        16 as real * accuracy::size(z.value()) <= 37 as real * reach,
        16 as real * accuracy::apart(x.value(), e0) <= 73 as real * unit,
        16 as real * accuracy::apart(y.value(), e1) <= 73 as real * unit,
        16 as real * accuracy::apart(z.value(), e2) <= 73 as real * unit,
    ensures
        x.sum(y).sum(z).finite(),
        accuracy::size(x.sum(y).sum(z).value()) <= 8 as real * reach,
        accuracy::apart(x.sum(y).sum(z).value(), e0 + e1 + e2) <= 27 as real * unit,
{
    vector_accuracy::lemma_step_is_tiny();
    lemma_sum_error(x, y, 75 as real / 16 as real * reach, 19 as real / 4 as real * unit, reach);
    let s = x.sum(y);
    lemma_sum_error(s, z, 29 as real / 4 as real * reach, 59 as real / 8 as real * unit, reach);
}

/// A unit vector, none of whose components is much beyond 1.
pub open spec fn nearly_unit(n: [Single; 3]) -> bool {
    &&& vector_accuracy::is_unit(n)
    &&& 16 as real * accuracy::size(n[0].value()) <= 17 as real
    &&& 16 as real * accuracy::size(n[1].value()) <= 17 as real
    &&& 16 as real * accuracy::size(n[2].value()) <= 17 as real
}

/// One coordinate of a position that was pushed out.
pub(crate) proof fn lemma_pushed_coordinate(r: Single, n: Single, c: Single, reach: real, unit: real)
    requires
        sound_reach(reach),
        0x100_0000 as real * unit == reach,
        number_within(r, reach),
        n.finite(),
        16 as real * accuracy::size(n.value()) <= 17 as real,
        c.finite(),
        8 as real * accuracy::size(c.value()) <= 81 as real * reach,
    ensures
        r.sum(n.product(c)).finite(),
        accuracy::apart(r.sum(n.product(c)).value(), r.value() + n.value() * c.value())
            <= 23 as real * unit,
{
    vector_accuracy::lemma_step_is_tiny();
    let nn = n.value();
    let cc = c.value();
    let n_max = 17 as real / 16 as real;
    let c_max = 81 as real / 8 as real * reach;
    let top = 173 as real / 16 as real * reach;
    lemma_product_size(nn, n_max, cc, c_max);
    assert(n_max * c_max <= top) by (nonlinear_arith)
        requires
            n_max == 17 as real / 16 as real,
            c_max == 81 as real / 8 as real * reach,
            top == 173 as real / 16 as real * reach,
            reach >= 0 as real,
    ;
    lemma_product_error(n, c, top, 87 as real / 8 as real * unit, reach);
    let move_out = n.product(c);
    lemma_sum_error(r, move_out, 191 as real / 16 as real * reach, 12 as real * unit, reach);
}

/// What a push-out by `c` along `n`, with an error in each coordinate, does to the
/// distance.
proof fn lemma_pushed_distance(
    r: (real, real, real),
    b: (real, real, real),
    n: (real, real, real),
    c: real,
    p: (real, real, real),
    square: real,
    before: real,
    after: real,
    reach: real,
    unit: real,
)
    requires
        reach >= 0 as real,
        0x100_0000 as real * unit == reach,
        16 as real * accuracy::size(n.0) <= 17 as real,
        16 as real * accuracy::size(n.1) <= 17 as real,
        16 as real * accuracy::size(n.2) <= 17 as real,
        accuracy::apart(p.0, r.0 + n.0 * c) <= 23 as real * unit,
        accuracy::apart(p.1, r.1 + n.1 * c) <= 23 as real * unit,
        accuracy::apart(p.2, r.2 + n.2 * c) <= 23 as real * unit,
        square == n.0 * n.0 + n.1 * n.1 + n.2 * n.2,
        0x100_0000 as real * accuracy::apart(square, 1 as real) <= 32 as real,
        8 as real * accuracy::size(c) <= 81 as real * reach,
        before == (r.0 - b.0) * n.0 + (r.1 - b.1) * n.1 + (r.2 - b.2) * n.2,
        after == (p.0 - b.0) * n.0 + (p.1 - b.1) * n.1 + (p.2 - b.2) * n.2,
    ensures
        accuracy::apart(after, before + c) <= 398 as real * unit,
{
    let f0 = p.0 - (r.0 + n.0 * c);
    let f1 = p.1 - (r.1 + n.1 * c);
    let f2 = p.2 - (r.2 + n.2 * c);
    lemma_pushed_term(r.0, b.0, n.0, c, p.0, f0, unit);
    lemma_pushed_term(r.1, b.1, n.1, c, p.1, f1, unit);
    lemma_pushed_term(r.2, b.2, n.2, c, p.2, f2, unit);
    let s0 = n.0 * n.0;
    let s1 = n.1 * n.1;
    let s2 = n.2 * n.2;
    assert(c * square == c * s0 + c * s1 + c * s2) by (nonlinear_arith)
        requires
            square == s0 + s1 + s2,
    ;
    let off = square - 1 as real;
    assert(c * off == c * square - c) by (nonlinear_arith)
        requires
            off == square - 1 as real,
    ;
    let c_max = 81 as real / 8 as real * reach;
    let off_max = 32 as real / 0x100_0000 as real;
    lemma_product_size(c, c_max, off, off_max);
    assert(c_max * off_max <= 324 as real * unit) by (nonlinear_arith)
        requires
            c_max == 81 as real / 8 as real * reach,
            off_max == 32 as real / 0x100_0000 as real,
            0x100_0000 as real * unit == reach,
    ;
}

proof fn lemma_pushed_term(r: real, b: real, n: real, c: real, p: real, f: real, unit: real)
    requires
        f == p - (r + n * c),
        accuracy::size(f) <= 23 as real * unit,
        16 as real * accuracy::size(n) <= 17 as real,
    ensures
        (p - b) * n == (r - b) * n + c * (n * n) + f * n,
        16 as real * accuracy::size(f * n) <= 391 as real * unit,
{
    assert((p - b) * n == (r - b) * n + c * (n * n) + f * n) by (nonlinear_arith)
        requires
            f == p - (r + n * c),
    ;
    let f_max = 23 as real * unit;
    let n_max = 17 as real / 16 as real;
    lemma_product_size(f, f_max, n, n_max);
    assert(f_max * n_max == 391 as real / 16 as real * unit) by (nonlinear_arith)
        requires
            f_max == 23 as real * unit,
            n_max == 17 as real / 16 as real,
    ;
}

/// The direction of a normal is a unit vector, component by component.
pub(crate) proof fn lemma_direction_nearly_unit(normal: [Single; 3])
    requires
        vector::has_direction(normal),
    ensures
        nearly_unit(vector::direction(normal)),
{
    vector_accuracy::law_direction_is_unit(normal);
    let n = vector::direction(normal);
    let square = vector_accuracy::exact_dot(n, n);
    lemma_component(n[0].value(), n[1].value(), n[2].value(), square);
    lemma_component(n[1].value(), n[0].value(), n[2].value(), square);
    lemma_component(n[2].value(), n[0].value(), n[1].value(), square);
}

proof fn lemma_component(x: real, y: real, z: real, square: real)
    requires
        square == x * x + y * y + z * z,
        accuracy::apart(square, 1 as real) <= 32 as real * accuracy::roundoff(),
    ensures
        16 as real * accuracy::size(x) <= 17 as real,
{
    let u = accuracy::roundoff();
    assert(y * y >= 0 as real) by (nonlinear_arith);
    assert(z * z >= 0 as real) by (nonlinear_arith);
    let m = accuracy::size(x);
    assert(m * m == x * x) by (nonlinear_arith)
        requires
            m == if x < 0 as real { -x } else { x },
    ;
    assert(m * m <= 1 as real + 32 as real * u);
    assert(16 as real * m <= 17 as real) by (nonlinear_arith)
        requires
            m * m <= 1 as real + 32 as real * u,
            m >= 0 as real,
            u == 1 as real / 0x100_0000 as real,
    ;
}

/// Pushing out reaches the clearance that is asked for, up to rounding; a position
/// that is left alone has it already.
proof fn lemma_pushed_out(
    rough: [Single; 3],
    base: [Single; 3],
    normal: [Single; 3],
    safe: Single,
    reach: real,
    unit: real,
)
    requires
        sound_reach(reach),
        0x100_0000 as real * unit == reach,
        point_within(rough, reach),
        point_within(base, reach),
        nearly_unit(normal),
        safe.finite(),
        16 as real * accuracy::size(safe.value()) <= 33 as real * reach,
    ensures
        ({
            let position = clothing_deformer::pushed_out(rough, base, normal, safe);
            let distance = exact_distance(position, base, normal);
            let pushed = clothing_deformer::signed_distance(rough, base, normal).less(safe);
            &&& vector::finite(position)
            &&& distance >= safe.value() - 500 as real * unit
            &&& pushed ==> distance <= safe.value() + 500 as real * unit
        }),
{
    vector_accuracy::lemma_step_is_tiny();
    lemma_signed_distance(rough, base, normal, reach, unit);
    let distance = clothing_deformer::signed_distance(rough, base, normal);
    if distance.less(safe) {
        lemma_difference_error(
            safe,
            distance,
            161 as real / 16 as real * reach,
            81 as real / 8 as real * unit,
            reach,
        );
        let c = safe.difference(distance);
        lemma_pushed_coordinate(rough[0], normal[0], c, reach, unit);
        lemma_pushed_coordinate(rough[1], normal[1], c, reach, unit);
        lemma_pushed_coordinate(rough[2], normal[2], c, reach, unit);
        let position = clothing_deformer::pushed_out(rough, base, normal, safe);
        let square = vector_accuracy::exact_dot(normal, normal);
        let off = accuracy::apart(square, 1 as real);
        let u = accuracy::roundoff();
        assert(0x100_0000 as real * off <= 32 as real) by (nonlinear_arith)
            requires
                off <= 32 as real * u,
                u == 1 as real / 0x100_0000 as real,
        ;
        lemma_pushed_distance(
            (rough[0].value(), rough[1].value(), rough[2].value()),
            (base[0].value(), base[1].value(), base[2].value()),
            (normal[0].value(), normal[1].value(), normal[2].value()),
            c.value(),
            (position[0].value(), position[1].value(), position[2].value()),
            square,
            exact_distance(rough, base, normal),
            exact_distance(position, base, normal),
            reach,
            unit,
        );
    } else {
        lemma_not_less(distance, safe);
    }
}

/// A finite number that is not below another stands for no smaller a value.
pub(crate) proof fn lemma_not_less(a: Single, b: Single)
    requires
        a.finite(),
        b.finite(),
        !a.less(b),
    ensures
        a.value() >= b.value(),
{
    single::lemma_key_order(b, a);
    accuracy::lemma_steps();
    let x = a.scaled() as real;
    let y = b.scaled() as real;
    let t = accuracy::steps_in_one();
    assert(x / t >= y / t) by (nonlinear_arith)
        requires
            x >= y,
            t > 0 as real,
    ;
}

/// A fitted clothing vertex does not clip: its exact distance from the tangent plane
/// of the skin is the clearance that its anchor asks for, plus the epsilon, at least,
/// up to an error of 2^-15 of `reach`. Where it was pushed out, it is no farther than
/// that either.
///
/// `reach` is any bound on the coordinates of the skin vertex and of the rough fit
/// and on the clearance. So a clearance above 2^-15 of it keeps the vertex outside the
/// skin, whatever the body's scale; below that, coordinates no longer tell inside from
/// outside.
pub proof fn law_fitted_vertex_keeps_clearance(
    cloth: SkinnedVertex,
    skin: SkinnedVertex,
    anchor: ClothAnchor,
    dna_scale: [Single; 3],
    clearance_epsilon: Single,
    reach: real,
)
    requires
        vector::has_direction(skin.normal),
        sound_reach(reach),
        point_within(skin.position, reach),
        point_within(clothing_deformer::rough_fit(skin, anchor, dna_scale), reach),
        number_within(anchor.thickness_clearance, reach),
        number_within(clearance_epsilon, reach),
    ensures
        ({
            let fitted = clothing_deformer::fitted(cloth, skin, anchor, dna_scale, clearance_epsilon);
            let normal = vector::direction(skin.normal);
            let rough = clothing_deformer::rough_fit(skin, anchor, dna_scale);
            let distance = exact_distance(fitted.position, skin.position, normal);
            let wanted = anchor.thickness_clearance.value() + clearance_epsilon.value();
            let error = reach / 0x8000 as real;
            let pushed = clothing_deformer::signed_distance(rough, skin.position, normal).less(
                anchor.thickness_clearance.sum(clearance_epsilon),
            );
            &&& vector::finite(fitted.position)
            &&& distance >= wanted - error
            &&& wanted > error ==> distance > 0 as real
            &&& pushed ==> distance <= wanted + error
        }),
{
    vector_accuracy::lemma_step_is_tiny();
    lemma_direction_nearly_unit(skin.normal);
    let unit = reach / 0x100_0000 as real;
    lemma_sum_error(
        anchor.thickness_clearance,
        clearance_epsilon,
        2 as real * reach,
        33 as real / 16 as real * unit,
        reach,
    );
    lemma_pushed_out(
        clothing_deformer::rough_fit(skin, anchor, dna_scale),
        skin.position,
        vector::direction(skin.normal),
        anchor.thickness_clearance.sum(clearance_epsilon),
        reach,
        unit,
    );
}

/// After a garment was fitted, none of its vertices clips: each is as far from the
/// skin vertex that it is bound to as its own anchor asks for, up to rounding. How the
/// anchors were matched does not matter, so neither does the stride of the tree that
/// they came from.
pub proof fn law_fitted_garment_keeps_clearance(
    skin: Seq<SkinnedVertex>,
    before: Seq<SkinnedVertex>,
    after: Seq<SkinnedVertex>,
    anchors: Seq<ClothAnchor>,
    dna_scale: [Single; 3],
    clearance_epsilon: Single,
    i: int,
    reach: real,
)
    requires
        clothing_deformer::fit_outcome(
            skin,
            before,
            after,
            anchors,
            dna_scale,
            clearance_epsilon,
            Ok(()),
        ),
        0 <= i < before.len(),
        ({
            let target = skin[anchors[i].target_skin_vertex_index as int];
            &&& vector::has_direction(target.normal)
            &&& sound_reach(reach)
            &&& point_within(target.position, reach)
            &&& point_within(clothing_deformer::rough_fit(target, anchors[i], dna_scale), reach)
            &&& number_within(anchors[i].thickness_clearance, reach)
            &&& number_within(clearance_epsilon, reach)
        }),
    ensures
        ({
            let target = skin[anchors[i].target_skin_vertex_index as int];
            let distance = exact_distance(
                after[i].position,
                target.position,
                vector::direction(target.normal),
            );
            let wanted = anchors[i].thickness_clearance.value() + clearance_epsilon.value();
            let error = reach / 0x8000 as real;
            &&& vector::finite(after[i].position)
            &&& distance >= wanted - error
            &&& wanted > error ==> distance > 0 as real
        }),
{
    law_fitted_vertex_keeps_clearance(
        before[i],
        skin[anchors[i].target_skin_vertex_index as int],
        anchors[i],
        dna_scale,
        clearance_epsilon,
        reach,
    );
    assert(after[i].position == clothing_deformer::fitted(
        before[i],
        skin[anchors[i].target_skin_vertex_index as int],
        anchors[i],
        dna_scale,
        clearance_epsilon,
    ).position);
}

} // verus!
