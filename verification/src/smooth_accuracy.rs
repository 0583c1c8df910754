use crate::accuracy;
use crate::clearance;
use crate::obj_loader;
use crate::single::Single;
use crate::vector;
use crate::vector_accuracy;
use crate::vertex::SkinnedVertex;
use vstd::prelude::*;

verus! {

/// Where corner `j` of triangle `t` is along `axis`, as a real number.
pub open spec fn corner(
    vertices: Seq<SkinnedVertex>,
    indices: Seq<u32>,
    t: int,
    j: int,
    axis: int,
) -> real {
    vertices[indices[3 * t + j] as int].position[axis].value()
}

/// One component of the cross product of the two sides of triangle `t` that start at its
/// first corner, in real numbers: `next` and `after` are the axes that follow the
/// component's own in turn.
pub open spec fn exact_face_normal(
    vertices: Seq<SkinnedVertex>,
    indices: Seq<u32>,
    t: int,
    next: int,
    after: int,
) -> real {
    let first_next = corner(vertices, indices, t, 1, next) - corner(vertices, indices, t, 0, next);
    let first_after = corner(vertices, indices, t, 1, after) - corner(vertices, indices, t, 0, after);
    let second_next = corner(vertices, indices, t, 2, next) - corner(vertices, indices, t, 0, next);
    let second_after = corner(vertices, indices, t, 2, after) - corner(
        vertices,
        indices,
        t,
        0,
        after,
    );
    first_next * second_after - first_after * second_next
}

/// A side of a triangle, along one axis.
proof fn lemma_side(to: Single, from: Single, reach: real)
    requires
        clearance::sound_reach(reach),
        clearance::number_within(to, reach),
        clearance::number_within(from, reach),
    ensures
        to.difference(from).finite(),
        accuracy::size(to.value() - from.value()) <= 2 as real * reach,
        accuracy::size(to.difference(from).value()) <= 3 as real * reach,
        0x100_0000 as real * accuracy::apart(
            to.difference(from).value(),
            to.value() - from.value(),
        ) <= 3 as real * reach,
{
    vector_accuracy::lemma_step_is_tiny();
    let unit = reach / 0x100_0000 as real;
    clearance::lemma_difference_error(
        to,
        from,
        2 as real * reach,
        33 as real / 16 as real * unit,
        reach,
    );
}

/// A product of two sides, with the errors that go into it. `area` is the square of
/// `reach`.
proof fn lemma_side_product(x: Single, y: Single, ex: real, ey: real, reach: real, area: real)
    requires
        area == reach * reach,
        reach > 0 as real,
        clearance::sound_reach(area),
        x.finite(),
        y.finite(),
        accuracy::size(x.value()) <= 3 as real * reach,
        accuracy::size(y.value()) <= 3 as real * reach,
        accuracy::size(ex) <= 2 as real * reach,
        accuracy::size(ey) <= 2 as real * reach,
        0x100_0000 as real * accuracy::apart(x.value(), ex) <= 3 as real * reach,
        0x100_0000 as real * accuracy::apart(y.value(), ey) <= 3 as real * reach,
    ensures
        x.product(y).finite(),
        accuracy::size(ex * ey) <= 4 as real * area,
        0x100_0000 as real * accuracy::apart(x.product(y).value(), ex * ey) <= 25 as real * area,
{
    vector_accuracy::lemma_step_is_tiny();
    let a = x.value();
    let b = y.value();
    let unit = area / 0x100_0000 as real;
    let short = 3 as real * reach;
    let side = 2 as real * reach;
    let off = 3 as real * reach / 0x100_0000 as real;
    clearance::lemma_product_size(a, short, b, short);
    clearance::lemma_product_size(ex, side, ey, side);
    assert(short * short == 9 as real * area) by (nonlinear_arith)
        requires
            short == 3 as real * reach,
            area == reach * reach,
    ;
    assert(side * side == 4 as real * area) by (nonlinear_arith)
        requires
            side == 2 as real * reach,
            area == reach * reach,
    ;
    clearance::lemma_product_error(x, y, 9 as real * area, 10 as real * unit, area);
    // The errors of the two sides, as the product passes them on.
    let d = a - ex;
    let e = b - ey;
    clearance::lemma_product_size(d, off, b, short);
    clearance::lemma_product_size(ex, side, e, off);
    assert(off * short == 9 as real * unit) by (nonlinear_arith)
        requires
            off == 3 as real * reach / 0x100_0000 as real,
            short == 3 as real * reach,
            area == reach * reach,
            unit == area / 0x100_0000 as real,
    ;
    assert(side * off == 6 as real * unit) by (nonlinear_arith)
        requires
            off == 3 as real * reach / 0x100_0000 as real,
            side == 2 as real * reach,
            area == reach * reach,
            unit == area / 0x100_0000 as real,
    ;
    assert(d * b == a * b - ex * b) by (nonlinear_arith)
        requires
            d == a - ex,
    ;
    assert(ex * e == ex * b - ex * ey) by (nonlinear_arith)
        requires
            e == b - ey,
    ;
}

/// One component of a computed face normal.
proof fn lemma_face_component(
    a1: Single,
    a2: Single,
    b1: Single,
    b2: Single,
    c1: Single,
    c2: Single,
    reach: real,
    area: real,
)
    requires
        area == reach * reach,
        reach > 0 as real,
        clearance::sound_reach(reach),
        clearance::sound_reach(area),
        clearance::number_within(a1, reach),
        clearance::number_within(a2, reach),
        clearance::number_within(b1, reach),
        clearance::number_within(b2, reach),
        clearance::number_within(c1, reach),
        clearance::number_within(c2, reach),
    ensures
        ({
            let got = b1.difference(a1).product(c2.difference(a2)).difference(
                b2.difference(a2).product(c1.difference(a1)),
            );
            let exact = (b1.value() - a1.value()) * (c2.value() - a2.value()) - (b2.value()
                - a2.value()) * (c1.value() - a1.value());
            &&& got.finite()
            &&& 0x100_0000 as real * accuracy::apart(got.value(), exact) <= 64 as real * area
        }),
{
    vector_accuracy::lemma_step_is_tiny();
    lemma_side(b1, a1, reach);
    lemma_side(b2, a2, reach);
    lemma_side(c1, a1, reach);
    lemma_side(c2, a2, reach);
    let unit = area / 0x100_0000 as real;
    lemma_side_product(
        b1.difference(a1),
        c2.difference(a2),
        b1.value() - a1.value(),
        c2.value() - a2.value(),
        reach,
        area,
    );
    lemma_side_product(
        b2.difference(a2),
        c1.difference(a1),
        b2.value() - a2.value(),
        c1.value() - a1.value(),
        reach,
        area,
    );
    let p = b1.difference(a1).product(c2.difference(a2));
    let q = b2.difference(a2).product(c1.difference(a1));
    clearance::lemma_difference_error(p, q, 9 as real * area, 10 as real * unit, area);
}

/// The normal of a triangle is the cross product of its sides, from the first corner to the
/// second and from the first to the third, up to an error of 2^-18 of the square of `reach`.
/// So it is perpendicular to the triangle, on the side from which the corners turn
/// counterclockwise, and as long as the area is large.
pub proof fn law_face_normal_is_the_cross_product(
    vertices: Seq<SkinnedVertex>,
    indices: Seq<u32>,
    t: int,
    reach: real,
    area: real,
)
    requires
        area == reach * reach,
        reach > 0 as real,
        clearance::sound_reach(reach),
        clearance::sound_reach(area),
        forall|j: int|
            0 <= j < 3 ==> clearance::point_within(
                vertices[(#[trigger] indices[3 * t + j]) as int].position,
                reach,
            ),
    ensures
        ({
            let normal = obj_loader::face_normal(vertices, indices, t);
            let error = area / 0x4_0000 as real;
            &&& vector::finite(normal)
            &&& accuracy::apart(normal[0].value(), exact_face_normal(vertices, indices, t, 1, 2))
                <= error
            &&& accuracy::apart(normal[1].value(), exact_face_normal(vertices, indices, t, 2, 0))
                <= error
            &&& accuracy::apart(normal[2].value(), exact_face_normal(vertices, indices, t, 0, 1))
                <= error
        }),
{
    let a = vertices[indices[3 * t + 0] as int].position;
    let b = vertices[indices[3 * t + 1] as int].position;
    let c = vertices[indices[3 * t + 2] as int].position;
    assert(clearance::point_within(a, reach));
    assert(clearance::point_within(b, reach));
    assert(clearance::point_within(c, reach));
    lemma_face_component(a[1], a[2], b[1], b[2], c[1], c[2], reach, area);
    lemma_face_component(a[2], a[0], b[2], b[0], c[2], c[0], reach, area);
    lemma_face_component(a[0], a[1], b[0], b[1], c[0], c[1], reach, area);
}

/// The normals of triangles are summed up at their corners: a triangle adds its normal, up to
/// rounding, at a vertex that is one of its corners, and nothing at a vertex that is none.
/// Before the first triangle the sum is zero, and a triangle with a corner that is not there
/// adds nothing anywhere.
pub proof fn law_normals_are_summed_up_at_corners(
    vertices: Seq<SkinnedVertex>,
    indices: Seq<u32>,
    t: int,
    v: int,
    axis: int,
)
    requires
        0 <= t,
        3 * t + 2 < indices.len(),
        0 <= axis < 3,
    ensures
        ({
            let before = obj_loader::normal_sum(vertices, indices, t, v);
            let after = obj_loader::normal_sum(vertices, indices, t + 1, v);
            let normal = obj_loader::face_normal(vertices, indices, t);
            let there = indices[3 * t] < vertices.len() && indices[3 * t + 1] < vertices.len()
                && indices[3 * t + 2] < vertices.len();
            let exact = before[axis].value() + normal[axis].value();
            &&& obj_loader::normal_sum(vertices, indices, 0, v)[axis].bits == 0
            &&& !there ==> after == before
            &&& indices[3 * t] != v && indices[3 * t + 1] != v && indices[3 * t + 2] != v ==> after
                == before
            &&& there && is_one_corner(indices, t, v) && before[axis].finite()
                && normal[axis].finite() ==> {
                &&& accuracy::size(exact) <= accuracy::limit() ==> after[axis].finite()
                &&& after[axis].finite() ==> accuracy::apart(after[axis].value(), exact)
                    <= accuracy::slack(exact)
            }
        }),
{
    let before = obj_loader::normal_sum(vertices, indices, t, v);
    let normal = obj_loader::face_normal(vertices, indices, t);
    assert(axis == 0 || axis == 1 || axis == 2);
    if before[axis].finite() && normal[axis].finite() {
        accuracy::law_sum_is_accurate(before[axis], normal[axis]);
    }
}

/// Vertex `v` is one of the corners of triangle `t`, and only one.
pub open spec fn is_one_corner(indices: Seq<u32>, t: int, v: int) -> bool {
    ||| indices[3 * t] == v && indices[3 * t + 1] != v && indices[3 * t + 2] != v
    ||| indices[3 * t] != v && indices[3 * t + 1] == v && indices[3 * t + 2] != v
    ||| indices[3 * t] != v && indices[3 * t + 1] != v && indices[3 * t + 2] == v
}

/// A smooth normal points where the sum of the normals of all triangles points.
pub proof fn law_smooth_normal_points_along_the_sum(
    vertices: Seq<SkinnedVertex>,
    indices: Seq<u32>,
    v: int,
)
    requires
        vector::has_direction(
            obj_loader::normal_sum(vertices, indices, indices.len() as int / 3, v),
        ),
    ensures
        ({
            let sum = obj_loader::normal_sum(vertices, indices, indices.len() as int / 3, v);
            let normal = obj_loader::smooth_normal(vertices, indices, v);
            &&& vector_accuracy::is_unit(normal)
            &&& vector_accuracy::points_along(
                normal,
                sum[0].value(),
                sum[1].value(),
                sum[2].value(),
                2 as real * accuracy::roundoff(),
            )
        }),
{
    let sum = obj_loader::normal_sum(vertices, indices, indices.len() as int / 3, v);
    vector_accuracy::law_vector_over_length_points_along(sum);
    vector_accuracy::law_vector_over_length_is_unit(sum);
}

} // verus!
