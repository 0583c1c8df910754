use crate::accuracy;
use crate::body_mutation;
use crate::clearance;
use crate::clothing_deformer;
use crate::clothing_deformer::ClothAnchor;
use crate::kd_tree;
use crate::single;
use crate::single::Single;
use crate::vector;
use crate::vector_accuracy;
use crate::vertex::{CharacterDNA, SkinnedVertex};
use vstd::prelude::*;

verus! {

/// An anchor's offset leads from the skin vertex to the clothing vertex: each component is
/// the difference of their coordinates, up to rounding. Nothing overflows up to 2^127.
pub proof fn law_anchor_offset_leads_to_the_clothing(
    cloth: SkinnedVertex,
    skin: Seq<SkinnedVertex>,
    target: u32,
    axis: int,
)
    requires
        0 <= axis < 3,
        cloth.position[axis].finite(),
        skin[target as int].position[axis].finite(),
    ensures
        ({
            let anchor = clothing_deformer::anchor_to(cloth, skin, target);
            let exact = cloth.position[axis].value() - skin[target as int].position[axis].value();
            let got = anchor.local_offset[axis];
            &&& anchor.target_skin_vertex_index == target
            &&& accuracy::size(exact) <= accuracy::limit() ==> got.finite()
            &&& got.finite() ==> accuracy::apart(got.value(), exact) <= accuracy::slack(exact)
        }),
{
    assert(axis == 0 || axis == 1 || axis == 2);
    accuracy::law_difference_is_accurate(
        cloth.position[axis],
        skin[target as int].position[axis],
    );
}

/// An anchor's clearance is how far the clothing is out along the skin's normal, up to an
/// error of 2^-19 of `reach`, and nothing where it is not out at all. Where the normal has
/// no direction, it is the length of the offset.
pub proof fn law_clearance_is_the_distance_out(
    cloth: SkinnedVertex,
    skin: Seq<SkinnedVertex>,
    target: u32,
    reach: real,
)
    requires
        clearance::sound_reach(reach),
        clearance::point_within(cloth.position, reach),
        clearance::point_within(skin[target as int].position, reach),
    ensures
        ({
            let vertex = skin[target as int];
            let anchor = clothing_deformer::anchor_to(cloth, skin, target);
            let out = clearance::exact_distance(
                cloth.position,
                vertex.position,
                vector::direction(vertex.normal),
            );
            let length = anchor.thickness_clearance.value();
            let offset = anchor.local_offset;
            &&& vector::has_direction(vertex.normal) ==> {
                &&& anchor.thickness_clearance.finite()
                &&& accuracy::apart(length, if out > 0 as real { out } else { 0 as real }) <= reach
                    / 0x8_0000 as real
            }
            &&& !vector::has_direction(vertex.normal) && vector::has_direction(offset) ==> {
                &&& length > 0 as real
                &&& accuracy::apart(length * length, vector_accuracy::exact_dot(offset, offset))
                    <= 7 as real * accuracy::roundoff() * (length * length)
            }
        }),
{
    let vertex = skin[target as int];
    let anchor = clothing_deformer::anchor_to(cloth, skin, target);
    if vector::has_direction(vertex.normal) {
        let normal = vector::direction(vertex.normal);
        let unit = reach / 0x100_0000 as real;
        clearance::lemma_direction_nearly_unit(vertex.normal);
        vector_accuracy::lemma_step_is_tiny();
        clearance::lemma_signed_distance(cloth.position, vertex.position, normal, reach, unit);
        let got = clothing_deformer::signed_distance(cloth.position, vertex.position, normal);
        accuracy::law_signs_and_constants(got);
        accuracy::law_order_is_that_of_the_values(Single::positive_zero(), got);
    } else if vector::has_direction(anchor.local_offset) {
        vector_accuracy::lemma_length(anchor.local_offset);
        vector_accuracy::lemma_step_is_tiny();
    }
}

/// What a clothing vertex's coordinate is before it is pushed out, in real numbers: the
/// skin's, and the offset times the scale.
pub open spec fn exact_rough(
    skin: SkinnedVertex,
    anchor: ClothAnchor,
    dna_scale: [Single; 3],
    axis: int,
) -> real {
    skin.position[axis].value() + anchor.local_offset[axis].value() * dna_scale[axis].value()
}

/// How far the scaled offset goes along a unit vector, in real numbers.
pub open spec fn exact_out(anchor: ClothAnchor, dna_scale: [Single; 3], normal: [Single; 3]) -> real {
    (anchor.local_offset[0].value() * dna_scale[0].value()) * normal[0].value() + (
    anchor.local_offset[1].value() * dna_scale[1].value()) * normal[1].value() + (
    anchor.local_offset[2].value() * dna_scale[2].value()) * normal[2].value()
}

/// Neither the skin's coordinate nor the offset times the scale is beyond `reach`.
pub open spec fn axis_within(
    skin: SkinnedVertex,
    anchor: ClothAnchor,
    dna_scale: [Single; 3],
    axis: int,
    reach: real,
) -> bool {
    &&& clearance::number_within(skin.position[axis], reach)
    &&& anchor.local_offset[axis].finite()
    &&& dna_scale[axis].finite()
    &&& accuracy::size(anchor.local_offset[axis].value() * dna_scale[axis].value()) <= reach
}

proof fn lemma_rough_coordinate(skin: Single, offset: Single, scale: Single, reach: real)
    requires
        clearance::sound_reach(4 as real * reach),
        clearance::number_within(skin, reach),
        offset.finite(),
        scale.finite(),
        accuracy::size(offset.value() * scale.value()) <= reach,
    ensures
        clearance::number_within(skin.sum(offset.product(scale)), 4 as real * reach),
        0x100_0000 as real * accuracy::apart(
            skin.sum(offset.product(scale)).value(),
            skin.value() + offset.value() * scale.value(),
        ) <= 8 as real * reach,
{
    vector_accuracy::lemma_step_is_tiny();
    let wide = 4 as real * reach;
    let unit = wide / 0x100_0000 as real;
    clearance::lemma_product_error(offset, scale, reach, unit / 2 as real, wide);
    let moved = offset.product(scale);
    clearance::lemma_sum_error(skin, moved, 3 as real * reach, unit, wide);
}

/// How an error in each coordinate changes the distance along a unit vector.
proof fn lemma_out_moves(p: real, b: real, exact: real, n: real, error: real)
    requires
        accuracy::apart(p, b + exact) <= error,
        16 as real * accuracy::size(n) <= 17 as real,
    ensures
        16 as real * accuracy::apart((p - b) * n, exact * n) <= 17 as real * error,
{
    let d = p - b - exact;
    let n_max = 17 as real / 16 as real;
    clearance::lemma_product_size(d, error, n, n_max);
    assert(d * n == (p - b) * n - exact * n) by (nonlinear_arith)
        requires
            d == p - b - exact,
    ;
    assert(error * n_max == 17 as real / 16 as real * error) by (nonlinear_arith)
        requires
            n_max == 17 as real / 16 as real,
    ;
}

/// A fitted vertex is where it belongs: at the skin's position plus the offset times the
/// scale, and from there pushed out along the skin's normal by as much as is missing to the
/// clearance and the epsilon, and by nothing where nothing is missing. Every coordinate is
/// so up to an error of 2^-15 of `reach`.
pub proof fn law_fitted_position_is_the_pushed_rough_fit(
    cloth: SkinnedVertex,
    skin: SkinnedVertex,
    anchor: ClothAnchor,
    dna_scale: [Single; 3],
    clearance_epsilon: Single,
    reach: real,
    axis: int,
)
    requires
        0 <= axis < 3,
        clearance::sound_reach(4 as real * reach),
        axis_within(skin, anchor, dna_scale, 0, reach),
        axis_within(skin, anchor, dna_scale, 1, reach),
        axis_within(skin, anchor, dna_scale, 2, reach),
        clearance::number_within(anchor.thickness_clearance, reach),
        clearance::number_within(clearance_epsilon, reach),
    ensures
        ({
            let fitted = clothing_deformer::fitted(cloth, skin, anchor, dna_scale, clearance_epsilon);
            let normal = vector::direction(skin.normal);
            let rough = exact_rough(skin, anchor, dna_scale, axis);
            let missing = anchor.thickness_clearance.value() + clearance_epsilon.value() - exact_out(
                anchor,
                dna_scale,
                normal,
            );
            let error = reach / 0x8000 as real;
            &&& fitted.position[axis].finite()
            &&& !vector::has_direction(skin.normal) ==> accuracy::apart(
                fitted.position[axis].value(),
                rough,
            ) <= error
            &&& vector::has_direction(skin.normal) && missing <= 0 as real ==> accuracy::apart(
                fitted.position[axis].value(),
                rough,
            ) <= error
            &&& vector::has_direction(skin.normal) && missing >= 0 as real ==> accuracy::apart(
                fitted.position[axis].value(),
                rough + normal[axis].value() * missing,
            ) <= error
        }),
{
    vector_accuracy::lemma_step_is_tiny();
    let wide = 4 as real * reach;
    let unit = wide / 0x100_0000 as real;
    let offset = anchor.local_offset;
    lemma_rough_coordinate(skin.position[0], offset[0], dna_scale[0], reach);
    lemma_rough_coordinate(skin.position[1], offset[1], dna_scale[1], reach);
    lemma_rough_coordinate(skin.position[2], offset[2], dna_scale[2], reach);
    let rough = clothing_deformer::rough_fit(skin, anchor, dna_scale);
    assert(axis == 0 || axis == 1 || axis == 2);
    if vector::has_direction(skin.normal) {
        let normal = vector::direction(skin.normal);
        clearance::lemma_direction_nearly_unit(skin.normal);
        clearance::lemma_signed_distance(rough, skin.position, normal, wide, unit);
        let distance = clothing_deformer::signed_distance(rough, skin.position, normal);
        let error = 2 as real * unit;
        lemma_out_moves(
            rough[0].value(),
            skin.position[0].value(),
            offset[0].value() * dna_scale[0].value(),
            normal[0].value(),
            error,
        );
        lemma_out_moves(
            rough[1].value(),
            skin.position[1].value(),
            offset[1].value() * dna_scale[1].value(),
            normal[1].value(),
            error,
        );
        lemma_out_moves(
            rough[2].value(),
            skin.position[2].value(),
            offset[2].value() * dna_scale[2].value(),
            normal[2].value(),
            error,
        );
        let out = exact_out(anchor, dna_scale, normal);
        assert(accuracy::apart(distance.value(), out) <= 34 as real * unit);
        let safe = anchor.thickness_clearance.sum(clearance_epsilon);
        clearance::lemma_sum_error(
            anchor.thickness_clearance,
            clearance_epsilon,
            2 as real * reach,
            unit,
            wide,
        );
        let wanted = anchor.thickness_clearance.value() + clearance_epsilon.value();
        let missing = wanted - out;
        let n = normal[axis].value();
        let n_max = 17 as real / 16 as real;
        accuracy::law_order_is_that_of_the_values(distance, safe);
        if distance.less(safe) {
            clearance::lemma_difference_error(
                safe,
                distance,
                161 as real / 16 as real * wide,
                81 as real / 8 as real * unit,
                wide,
            );
            let c = safe.difference(distance);
            clearance::lemma_pushed_coordinate(rough[axis], normal[axis], c, wide, unit);
            let off = c.value() - missing;
            assert(accuracy::size(off) <= 46 as real * unit);
            lemma_factor_moves(n, c.value(), missing, 46 as real * unit);
            if missing <= 0 as real {
                // The vertex was pushed by no more than rounding.
                lemma_factor_moves(n, missing, 0 as real, 46 as real * unit);
                assert(n * 0 as real == 0 as real) by (nonlinear_arith);
            }
        } else {
            assert(missing <= 46 as real * unit);
            if missing >= 0 as real {
                lemma_factor_moves(n, missing, 0 as real, 46 as real * unit);
                assert(n * 0 as real == 0 as real) by (nonlinear_arith);
            }
        }
    }
}

proof fn lemma_factor_moves(n: real, c: real, d: real, error: real)
    requires
        16 as real * accuracy::size(n) <= 17 as real,
        accuracy::apart(c, d) <= error,
    ensures
        16 as real * accuracy::apart(n * c, n * d) <= 17 as real * error,
{
    let e = c - d;
    let n_max = 17 as real / 16 as real;
    clearance::lemma_product_size(n, n_max, e, error);
    assert(n * e == n * c - n * d) by (nonlinear_arith)
        requires
            e == c - d,
    ;
    assert(n_max * error == 17 as real / 16 as real * error) by (nonlinear_arith)
        requires
            n_max == 17 as real / 16 as real,
    ;
}

/// Fitting to the body that the anchor was made on, at scale 1, leaves a vertex that is not
/// pushed out where it was, up to an error of 2^-22 of `reach`.
pub proof fn law_unchanged_body_keeps_what_is_not_pushed(
    cloth: SkinnedVertex,
    skin: Seq<SkinnedVertex>,
    target: u32,
    clearance_epsilon: Single,
    reach: real,
    axis: int,
)
    requires
        0 <= axis < 3,
        clearance::sound_reach(reach),
        clearance::point_within(cloth.position, reach),
        clearance::point_within(skin[target as int].position, reach),
        ({
            let anchor = clothing_deformer::anchor_to(cloth, skin, target);
            let vertex = skin[target as int];
            let one = [Single::one(), Single::one(), Single::one()];
            vector::has_direction(vertex.normal) ==> !clothing_deformer::signed_distance(
                clothing_deformer::rough_fit(vertex, anchor, one),
                vertex.position,
                vector::direction(vertex.normal),
            ).less(anchor.thickness_clearance.sum(clearance_epsilon))
        }),
    ensures
        ({
            let anchor = clothing_deformer::anchor_to(cloth, skin, target);
            let one = [Single::one(), Single::one(), Single::one()];
            let fitted = clothing_deformer::fitted(
                cloth,
                skin[target as int],
                anchor,
                one,
                clearance_epsilon,
            );
            &&& fitted.position[axis].finite()
            &&& accuracy::apart(fitted.position[axis].value(), cloth.position[axis].value())
                <= reach / 0x40_0000 as real
        }),
{
    vector_accuracy::lemma_step_is_tiny();
    let vertex = skin[target as int];
    let unit = reach / 0x100_0000 as real;
    assert(axis == 0 || axis == 1 || axis == 2);
    let c = cloth.position[axis];
    let b = vertex.position[axis];
    clearance::lemma_difference_error(c, b, 2 as real * reach, 33 as real / 16 as real * unit, reach);
    let offset = c.difference(b);
    single::law_product_with_one(offset);
    clearance::lemma_sum_error(b, offset, 17 as real / 16 as real * reach, 18 as real / 16 as real
        * unit, reach);
}

/// Clothing on or outside the skin stays where it was when it is fitted to the body that
/// its anchor was made on, at scale 1 and with no epsilon, up to an error of 2^-11 of
/// `reach`: what was built in the bind pose is found again there.
pub proof fn law_unchanged_body_keeps_the_garment(
    cloth: SkinnedVertex,
    skin: Seq<SkinnedVertex>,
    target: u32,
    reach: real,
    axis: int,
)
    requires
        0 <= axis < 3,
        clearance::sound_reach(32 as real * reach),
        clearance::sound_reach(reach),
        clearance::point_within(cloth.position, reach),
        clearance::point_within(skin[target as int].position, reach),
        ({
            let vertex = skin[target as int];
            vector::has_direction(vertex.normal) ==> clearance::exact_distance(
                cloth.position,
                vertex.position,
                vector::direction(vertex.normal),
            ) >= 0 as real
        }),
        ({
            let vertex = skin[target as int];
            !vector::has_direction(vertex.normal) ==> clearance::number_within(
                clothing_deformer::anchor_to(cloth, skin, target).thickness_clearance,
                8 as real * reach,
            )
        }),
    ensures
        ({
            let anchor = clothing_deformer::anchor_to(cloth, skin, target);
            let one = [Single::one(), Single::one(), Single::one()];
            let fitted = clothing_deformer::fitted(
                cloth,
                skin[target as int],
                anchor,
                one,
                Single::positive_zero(),
            );
            &&& fitted.position[axis].finite()
            &&& accuracy::apart(fitted.position[axis].value(), cloth.position[axis].value())
                <= reach / 0x800 as real
        }),
{
    vector_accuracy::lemma_step_is_tiny();
    let vertex = skin[target as int];
    let anchor = clothing_deformer::anchor_to(cloth, skin, target);
    let one = [Single::one(), Single::one(), Single::one()];
    let zero = Single::positive_zero();
    let wide = 8 as real * reach;
    let unit = reach / 0x100_0000 as real;
    accuracy::law_signs_and_constants(zero);
    lemma_own_offset(cloth.position[0], vertex.position[0], reach);
    lemma_own_offset(cloth.position[1], vertex.position[1], reach);
    lemma_own_offset(cloth.position[2], vertex.position[2], reach);
    assert(axis_within(vertex, anchor, one, 0, wide));
    assert(axis_within(vertex, anchor, one, 1, wide));
    assert(axis_within(vertex, anchor, one, 2, wide));
    assert(axis == 0 || axis == 1 || axis == 2);
    if vector::has_direction(vertex.normal) {
        let normal = vector::direction(vertex.normal);
        clearance::lemma_direction_nearly_unit(vertex.normal);
        law_clearance_is_the_distance_out(cloth, skin, target, reach);
        lemma_own_term(cloth.position[0], vertex.position[0], normal[0], reach);
        lemma_own_term(cloth.position[1], vertex.position[1], normal[1], reach);
        lemma_own_term(cloth.position[2], vertex.position[2], normal[2], reach);
        let out = clearance::exact_distance(cloth.position, vertex.position, normal);
        let scaled_out = exact_out(anchor, one, normal);
        assert(accuracy::apart(scaled_out, out) <= 8 as real * unit);
        assert(accuracy::size(out) <= 7 as real * reach);
        law_fitted_position_is_the_pushed_rough_fit(cloth, vertex, anchor, one, zero, wide, axis);
        let missing = anchor.thickness_clearance.value() + zero.value() - scaled_out;
        if missing >= 0 as real {
            let n = normal[axis].value();
            let most = reach / 0x4_0000 as real;
            assert(missing <= most);
            lemma_factor_moves(n, missing, 0 as real, most);
            assert(n * 0 as real == 0 as real) by (nonlinear_arith);
        }
    } else {
        law_fitted_position_is_the_pushed_rough_fit(cloth, vertex, anchor, one, zero, wide, axis);
    }
}

proof fn lemma_own_offset(c: Single, b: Single, reach: real)
    requires
        clearance::sound_reach(reach),
        clearance::number_within(c, reach),
        clearance::number_within(b, reach),
    ensures
        c.difference(b).finite(),
        c.difference(b).value() * Single::one().value() == c.difference(b).value(),
        Single::one().finite(),
        accuracy::size(c.difference(b).value()) <= 3 as real * reach,
        16 as real * 0x100_0000 as real * accuracy::apart(
            c.difference(b).value(),
            c.value() - b.value(),
        ) <= 33 as real * reach,
{
    vector_accuracy::lemma_step_is_tiny();
    let unit = reach / 0x100_0000 as real;
    clearance::lemma_difference_error(c, b, 2 as real * reach, 33 as real / 16 as real * unit, reach);
    let offset = c.difference(b);
    accuracy::law_signs_and_constants(offset);
    let v = offset.value();
    assert(v * 1 as real == v) by (nonlinear_arith);
}

proof fn lemma_own_term(c: Single, b: Single, n: Single, reach: real)
    requires
        clearance::sound_reach(reach),
        clearance::number_within(c, reach),
        clearance::number_within(b, reach),
        16 as real * accuracy::size(n.value()) <= 17 as real,
    ensures
        2 as real * 0x100_0000 as real * accuracy::apart(
            (c.difference(b).value() * Single::one().value()) * n.value(),
            (c.value() - b.value()) * n.value(),
        ) <= 5 as real * reach,
        16 as real * accuracy::size((c.value() - b.value()) * n.value()) <= 34 as real * reach,
{
    lemma_own_offset(c, b, reach);
    let unit = reach / 0x100_0000 as real;
    let x = c.value() - b.value();
    let y = c.difference(b).value();
    let z = n.value();
    lemma_factor_moves(z, y, x, 33 as real / 16 as real * unit);
    assert(z * y == y * z && z * x == x * z) by (nonlinear_arith);
    let top = 2 as real * reach;
    let n_max = 17 as real / 16 as real;
    clearance::lemma_product_size(x, top, z, n_max);
    assert(top * n_max == 34 as real / 16 as real * reach) by (nonlinear_arith)
        requires
            top == 2 as real * reach,
            n_max == 17 as real / 16 as real,
    ;
}

/// A garment of which every vertex lies on or outside the skin that it was anchored to comes
/// back from fitting to that same skin, at scale 1 and with no epsilon, as it went in, up to
/// an error of 2^-11 of `reach`.
pub proof fn law_bind_pose_garment_comes_back(
    skin: Seq<SkinnedVertex>,
    before: Seq<SkinnedVertex>,
    after: Seq<SkinnedVertex>,
    anchors: Seq<ClothAnchor>,
    i: int,
    axis: int,
    reach: real,
)
    requires
        clothing_deformer::all_bound(anchors, before, skin),
        clothing_deformer::fit_outcome(
            skin,
            before,
            after,
            anchors,
            [Single::one(), Single::one(), Single::one()],
            Single::positive_zero(),
            Ok(()),
        ),
        0 <= i < before.len(),
        0 <= axis < 3,
        clearance::sound_reach(32 as real * reach),
        clearance::sound_reach(reach),
        clearance::point_within(before[i].position, reach),
        ({
            let target = skin[anchors[i].target_skin_vertex_index as int];
            &&& clearance::point_within(target.position, reach)
            &&& vector::has_direction(target.normal)
            &&& clearance::exact_distance(
                before[i].position,
                target.position,
                vector::direction(target.normal),
            ) >= 0 as real
        }),
    ensures
        after.len() == before.len(),
        after[i].position[axis].finite(),
        accuracy::apart(after[i].position[axis].value(), before[i].position[axis].value()) <= reach
            / 0x800 as real,
{
    assert(clothing_deformer::binds_to_closest_skin(anchors[i], before[i], skin));
    law_unchanged_body_keeps_the_garment(
        before[i],
        skin,
        anchors[i].target_skin_vertex_index,
        reach,
        axis,
    );
}

/// Fitting puts every vertex of a garment where its own anchor and the skin vertex under it
/// say, up to an error of 2^-15 of `reach`: at the rough fit, where nothing is missing to
/// the clearance, and otherwise pushed out along the normal by what is missing.
pub proof fn law_fitted_garment_is_where_it_belongs(
    skin: Seq<SkinnedVertex>,
    before: Seq<SkinnedVertex>,
    after: Seq<SkinnedVertex>,
    anchors: Seq<ClothAnchor>,
    dna_scale: [Single; 3],
    clearance_epsilon: Single,
    i: int,
    axis: int,
    reach: real,
)
    requires
        clothing_deformer::fit_outcome(
            skin,
            before,
            after,
            anchors,
            dna_scale,
            clearance_epsilon,
            Ok(()),
        ),
        0 <= i < before.len(),
        0 <= axis < 3,
        clearance::sound_reach(4 as real * reach),
        ({
            let target = skin[anchors[i].target_skin_vertex_index as int];
            &&& axis_within(target, anchors[i], dna_scale, 0, reach)
            &&& axis_within(target, anchors[i], dna_scale, 1, reach)
            &&& axis_within(target, anchors[i], dna_scale, 2, reach)
        }),
        clearance::number_within(anchors[i].thickness_clearance, reach),
        clearance::number_within(clearance_epsilon, reach),
    ensures
        ({
            let target = skin[anchors[i].target_skin_vertex_index as int];
            let normal = vector::direction(target.normal);
            let missing = anchors[i].thickness_clearance.value() + clearance_epsilon.value()
                - exact_out(anchors[i], dna_scale, normal);
            let push = if vector::has_direction(target.normal) && missing > 0 as real {
                normal[axis].value() * missing
            } else {
                0 as real
            };
            &&& after.len() == before.len()
            &&& after[i].position[axis].finite()
            &&& accuracy::apart(
                after[i].position[axis].value(),
                target.position[axis].value() + anchors[i].local_offset[axis].value()
                    * dna_scale[axis].value() + push,
            ) <= reach / 0x8000 as real
            &&& after[i].normal == before[i].normal
            &&& after[i].uv == before[i].uv
            &&& after[i].bone_indices == target.bone_indices
            &&& after[i].bone_weights == target.bone_weights
        }),
{
    law_fitted_position_is_the_pushed_rough_fit(
        before[i],
        skin[anchors[i].target_skin_vertex_index as int],
        anchors[i],
        dna_scale,
        clearance_epsilon,
        reach,
        axis,
    );
}

/// The square of the distance between two points, in real numbers.
pub open spec fn exact_squared_distance(a: [Single; 3], b: [Single; 3]) -> real {
    let x = a[0].value() - b[0].value();
    let y = a[1].value() - b[1].value();
    let z = a[2].value() - b[2].value();
    x * x + y * y + z * z
}

/// A computed squared distance is the exact one up to rounding.
pub proof fn law_squared_distance_is_accurate(a: [Single; 3], b: [Single; 3])
    requires
        clearance::point_within(a, 0x800_0000_0000_0000 as real),
        clearance::point_within(b, 0x800_0000_0000_0000 as real),
    ensures
        vector::squared_distance(a, b).finite(),
        accuracy::apart(vector::squared_distance(a, b).value(), exact_squared_distance(a, b))
            <= exact_squared_distance(a, b) / 0x10_0000 as real + 1 as real / 0x800_0000 as real,
        exact_squared_distance(a, b) >= 0 as real,
{
    let d = vector::difference(a, b);
    lemma_short_difference(a[0], b[0]);
    lemma_short_difference(a[1], b[1]);
    lemma_short_difference(a[2], b[2]);
    vector_accuracy::lemma_dot_is_finite(d);
    vector_accuracy::lemma_dot_with_itself(d);
    vector_accuracy::lemma_step_in_numbers();
    let x = a[0].value() - b[0].value();
    let y = a[1].value() - b[1].value();
    let z = a[2].value() - b[2].value();
    vector_accuracy::lemma_square_near(d[0].value(), x);
    vector_accuracy::lemma_square_near(d[1].value(), y);
    vector_accuracy::lemma_square_near(d[2].value(), z);
    vector_accuracy::lemma_square_not_negative(x);
    vector_accuracy::lemma_square_not_negative(y);
    vector_accuracy::lemma_square_not_negative(z);
    vector_accuracy::lemma_part(x * x);
    vector_accuracy::lemma_part(y * y);
    vector_accuracy::lemma_part(z * z);
    vector_accuracy::lemma_part(vector_accuracy::exact_dot(d, d));
}

proof fn lemma_short_difference(a: Single, b: Single)
    requires
        clearance::number_within(a, 0x800_0000_0000_0000 as real),
        clearance::number_within(b, 0x800_0000_0000_0000 as real),
    ensures
        a.difference(b).finite(),
        accuracy::size(a.difference(b).value()) <= 0x2000_0000_0000_0000 as real,
        accuracy::size(a.value() - b.value()) <= 0x1000_0000_0000_0000 as real,
        accuracy::apart(a.difference(b).value(), a.value() - b.value()) <= accuracy::roundoff()
            * accuracy::size(a.value() - b.value()) + accuracy::smallest_step(),
{
    vector_accuracy::lemma_large();
    vector_accuracy::lemma_step_is_tiny();
    vector_accuracy::lemma_part(accuracy::size(a.value() - b.value()));
    accuracy::law_difference_is_accurate(a, b);
}

/// What is closest by the computed distances is closest: no other point is closer by more
/// than rounding.
pub proof fn law_closest_is_closest(
    positions: Seq<[Single; 3]>,
    query: [Single; 3],
    r: int,
    i: int,
)
    requires
        kd_tree::is_closest(positions, query, r),
        0 <= i < positions.len(),
        clearance::point_within(positions[r], 0x800_0000_0000_0000 as real),
        clearance::point_within(positions[i], 0x800_0000_0000_0000 as real),
        clearance::point_within(query, 0x800_0000_0000_0000 as real),
    ensures
        ({
            let found = exact_squared_distance(positions[r], query);
            let other = exact_squared_distance(positions[i], query);
            found - other <= (found + other) / 0x10_0000 as real + 1 as real / 0x400_0000 as real
        }),
{
    law_squared_distance_is_accurate(positions[r], query);
    law_squared_distance_is_accurate(positions[i], query);
    let near = vector::squared_distance(positions[r], query);
    let far = vector::squared_distance(positions[i], query);
    accuracy::law_order_is_that_of_the_values(near, far);
    assert(near.key() <= far.key());
}

/// An anchor built for a whole skin leads to a skin vertex that no other one is closer
/// than by more than rounding.
pub proof fn law_anchor_binds_to_the_closest_vertex(
    anchors: Seq<ClothAnchor>,
    cloth: Seq<SkinnedVertex>,
    skin: Seq<SkinnedVertex>,
    i: int,
    other: int,
)
    requires
        clothing_deformer::all_bound(anchors, cloth, skin),
        0 <= i < cloth.len(),
        0 <= other < skin.len(),
        clearance::point_within(cloth[i].position, 0x800_0000_0000_0000 as real),
        clearance::point_within(skin[other].position, 0x800_0000_0000_0000 as real),
        clearance::point_within(
            skin[anchors[i].target_skin_vertex_index as int].position,
            0x800_0000_0000_0000 as real,
        ),
    ensures
        anchors.len() == cloth.len(),
        anchors[i].target_skin_vertex_index < skin.len(),
        ({
            let target = skin[anchors[i].target_skin_vertex_index as int];
            let found = exact_squared_distance(target.position, cloth[i].position);
            let second = exact_squared_distance(skin[other].position, cloth[i].position);
            found - second <= (found + second) / 0x10_0000 as real + 1 as real
                / 0x400_0000 as real
        }),
{
    assert(clothing_deformer::binds_to_closest_skin(anchors[i], cloth[i], skin));
    let target = skin[anchors[i].target_skin_vertex_index as int];
    law_squared_distance_is_accurate(target.position, cloth[i].position);
    law_squared_distance_is_accurate(skin[other].position, cloth[i].position);
    let near = vector::squared_distance(target.position, cloth[i].position);
    let far = vector::squared_distance(skin[other].position, cloth[i].position);
    accuracy::law_order_is_that_of_the_values(near, far);
    assert(near.key() <= far.key());
}

/// What a character's two modifiers do to its body: the height modifier scales along Y, and
/// the weight modifier along X and Z, up to rounding.
pub proof fn law_dna_scales_height_and_girth(vertex: SkinnedVertex, dna: CharacterDNA, axis: int)
    requires
        0 <= axis < 3,
        vertex.position[axis].finite(),
        dna.height_modifier.finite(),
        dna.weight_modifier.finite(),
    ensures
        ({
            let modifier = if axis == 1 {
                dna.height_modifier.value()
            } else {
                dna.weight_modifier.value()
            };
            let exact = vertex.position[axis].value() * modifier;
            let got = body_mutation::mutated(
                vertex,
                clothing_deformer::body_scale(dna),
            ).position[axis];
            &&& accuracy::size(exact) <= accuracy::limit() ==> got.finite()
            &&& got.finite() ==> accuracy::apart(got.value(), exact) <= accuracy::slack(exact)
        }),
{
    body_mutation::law_mutated_position_is_the_scaled_one(
        vertex,
        clothing_deformer::body_scale(dna),
        axis,
    );
    assert(axis == 0 || axis == 1 || axis == 2);
}

/// A character's height modifier is for the axis Y, and its weight modifier for X and Z.
pub proof fn law_height_is_along_y(dna: CharacterDNA)
    ensures
        clothing_deformer::body_scale(dna)[1] == dna.height_modifier,
        clothing_deformer::body_scale(dna)[0] == dna.weight_modifier,
        clothing_deformer::body_scale(dna)[2] == dna.weight_modifier,
{
}

} // verus!
