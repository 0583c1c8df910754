use crate::accuracy;
use crate::single;
use crate::single::{Single, ONE_BITS, ZERO_BITS};
use crate::text;
use crate::text::append_decimal;
use crate::vector;
use crate::vector::{v_dot, v_mul_components, v_scale};
use crate::vector_accuracy;
use crate::vertex::SkinnedVertex;
use vstd::prelude::*;
use vstd::string::StringExecFns;

verus! {

/// The bit pattern of 0.0001: a normal whose squared length is no more than this
/// after scaling is not trusted.
pub const MIN_NORMAL_LENGTH_SQ_BITS: u32 = 0x38d1_b717;

#[derive(Clone, Copy, Debug, PartialEq, Eq)]
pub enum BodyMutationError {
    /// A scale component is not a positive finite number.
    InvalidScale { component_index: usize, value: Single },
}

impl BodyMutationError {
    /// The text that [`BodyMutationError::message`] returns, given how the value is
    /// displayed.
    pub open spec fn text(self, value_text: Seq<char>) -> Seq<char> {
        match self {
            BodyMutationError::InvalidScale { component_index, value } => "scale["@
                + text::decimal(component_index as nat) + "] = "@ + value_text
                + " is invalid; scale components must be finite and > 0.0"@,
        }
    }

    /// What went wrong, in words. `value_text` is the decimal rendering of the value.
    pub fn message(&self, value_text: &str) -> (r: String)
        ensures
            r@ == self.text(value_text@),
    {
        match self {
            BodyMutationError::InvalidScale { component_index, value: _ } => {
                let mut m = String::from_str("scale[");
                append_decimal(&mut m, *component_index as u64);
                m.append("] = ");
                m.append(value_text);
                m.append(" is invalid; scale components must be finite and > 0.0");
                m
            },
        }
    }
}

pub open spec fn is_valid_component(c: Single) -> bool {
    c.finite() && Single::positive_zero().less(c)
}

/// The first component of a scale that is not a positive finite number.
pub open spec fn scale_error(scale: [Single; 3]) -> Option<BodyMutationError> {
    if !is_valid_component(scale[0]) {
        Some(BodyMutationError::InvalidScale { component_index: 0, value: scale[0] })
    } else if !is_valid_component(scale[1]) {
        Some(BodyMutationError::InvalidScale { component_index: 1, value: scale[1] })
    } else if !is_valid_component(scale[2]) {
        Some(BodyMutationError::InvalidScale { component_index: 2, value: scale[2] })
    } else {
        None
    }
}

/// A normal divided by the scale.
pub open spec fn divided_normal(normal: [Single; 3], scale: [Single; 3]) -> [Single; 3] {
    [
        normal[0].quotient(scale[0]),
        normal[1].quotient(scale[1]),
        normal[2].quotient(scale[2]),
    ]
}

/// The normal of a scaled surface: divided by the scale and brought back to length
/// 1. Where that is too short to trust, or not finite, the normal stays as it is.
pub open spec fn scaled_normal(normal: [Single; 3], scale: [Single; 3]) -> [Single; 3] {
    let divided = divided_normal(normal, scale);
    let len_sq = vector::dot(divided, divided);
    if len_sq.finite() && (Single { bits: MIN_NORMAL_LENGTH_SQ_BITS }).less(len_sq) {
        vector::scaled(divided, Single::one().quotient(len_sq.square_root()))
    } else {
        normal
    }
}

/// The vertex of a scaled body. Texture coordinates and skinning stay.
pub open spec fn mutated(vertex: SkinnedVertex, scale: [Single; 3]) -> SkinnedVertex {
    SkinnedVertex {
        position: vector::componentwise_product(vertex.position, scale),
        normal: scaled_normal(vertex.normal, scale),
        ..vertex
    }
}

fn mutate_vertex(v: &SkinnedVertex, scale: [Single; 3]) -> (r: SkinnedVertex)
    ensures
        r == mutated(*v, scale),
{
    let position = v_mul_components(v.position, scale);
    let divided = [
        v.normal[0].divided_by(scale[0]),
        v.normal[1].divided_by(scale[1]),
        v.normal[2].divided_by(scale[2]),
    ];
    let len_sq = v_dot(divided, divided);
    let normal = if len_sq.is_finite() && (Single { bits: MIN_NORMAL_LENGTH_SQ_BITS }).less_than(
        len_sq,
    ) {
        let inv_len = (Single { bits: ONE_BITS }).divided_by(len_sq.sqrt());
        v_scale(divided, inv_len)
    } else {
        v.normal
    };
    SkinnedVertex {
        position,
        normal,
        uv: v.uv,
        bone_indices: v.bone_indices,
        bone_weights: v.bone_weights,
    }
}

/// `after` is a finite coordinate times the scale, up to rounding and unless that
/// overflows.
pub open spec fn is_scaled_coordinate(before: Single, scale: Single, after: Single) -> bool {
    let exact = before.value() * scale.value();
    before.finite() ==> {
        &&& accuracy::size(exact) <= accuracy::limit() ==> after.finite()
        &&& after.finite() ==> accuracy::apart(after.value(), exact) <= accuracy::slack(exact)
    }
}

/// Scales every vertex about the origin, along each axis by its own factor.
pub fn mutate_skin_vertices(vertices: &[SkinnedVertex], scale: [Single; 3]) -> (r: Result<
    Vec<SkinnedVertex>,
    BodyMutationError,
>)
    ensures
        match scale_error(scale) {
            Some(e) => r == Err::<Vec<SkinnedVertex>, BodyMutationError>(e),
            None => {
                &&& r is Ok
                &&& r->Ok_0@ == vertices@.map_values(|v: SkinnedVertex| mutated(v, scale))
            },
        },
        r is Ok ==> r->Ok_0@.len() == vertices@.len(),
        r is Ok ==> forall|i: int, axis: int|
            0 <= i < vertices@.len() && 0 <= axis < 3 ==> is_scaled_coordinate(
                vertices@[i].position[axis],
                scale[axis],
                #[trigger] r->Ok_0@[i].position[axis],
            ),
{
    let mut component_index: usize = 0;
    while component_index < 3
        invariant
            component_index <= 3,
            component_index > 0 ==> is_valid_component(scale[0]),
            component_index > 1 ==> is_valid_component(scale[1]),
            component_index > 2 ==> is_valid_component(scale[2]),
        decreases 3 - component_index,
    {
        let value = scale[component_index];
        assert(component_index == 0 || component_index == 1 || component_index == 2);
        if !(value.is_finite() && (Single { bits: ZERO_BITS }).less_than(value)) {
            return Err(BodyMutationError::InvalidScale { component_index, value });
        }
        component_index = component_index + 1;
    }
    let mut out: Vec<SkinnedVertex> = Vec::new();
    let mut i: usize = 0;
    while i < vertices.len()
        invariant
            i <= vertices@.len(),
            out@.len() == i,
            forall|j: int| 0 <= j < i ==> #[trigger] out@[j] == mutated(vertices@[j], scale),
        decreases vertices@.len() - i,
    {
        out.push(mutate_vertex(&vertices[i], scale));
        i = i + 1;
    }
    assert(out@ =~= vertices@.map_values(|v: SkinnedVertex| mutated(v, scale)));
    proof {
        assert forall|i: int, axis: int| 0 <= i < vertices@.len() && 0 <= axis
            < 3 implies is_scaled_coordinate(
            vertices@[i].position[axis],
            scale[axis],
            #[trigger] out@[i].position[axis],
        ) by {
            assert(axis == 0 || axis == 1 || axis == 2);
            assert(out@[i] == mutated(vertices@[i], scale));
            if vertices@[i].position[axis].finite() {
                law_mutated_position_is_the_scaled_one(vertices@[i], scale, axis);
            }
        }
    }
    Ok(out)
}

/// Scaling by 1 along every axis leaves finite positions as they are, bit for bit.
pub proof fn law_identity_scale_keeps_positions(vertex: SkinnedVertex)
    requires
        vector::finite(vertex.position),
    ensures
        scale_error([Single::one(), Single::one(), Single::one()]) is None,
        mutated(vertex, [Single::one(), Single::one(), Single::one()]).position == vertex.position,
{
    let scale = [Single::one(), Single::one(), Single::one()];
    single::law_product_with_one(vertex.position[0]);
    single::law_product_with_one(vertex.position[1]);
    single::law_product_with_one(vertex.position[2]);
    assert(mutated(vertex, scale).position =~= vertex.position);
}

/// Whatever the scale, texture coordinates and skinning pass through.
pub proof fn law_mutation_keeps_uv_and_skinning(vertex: SkinnedVertex, scale: [Single; 3])
    ensures
        mutated(vertex, scale).uv == vertex.uv,
        mutated(vertex, scale).bone_indices == vertex.bone_indices,
        mutated(vertex, scale).bone_weights == vertex.bone_weights,
{
}

/// Unit normals are unit normals after mutation, whatever the scale.
pub proof fn law_mutation_keeps_normals_unit(vertex: SkinnedVertex, scale: [Single; 3])
    requires
        vector_accuracy::is_unit(vertex.normal),
    ensures
        vector_accuracy::is_unit(mutated(vertex, scale).normal),
{
    let divided = divided_normal(vertex.normal, scale);
    let len_sq = vector::dot(divided, divided);
    if len_sq.finite() && (Single { bits: MIN_NORMAL_LENGTH_SQ_BITS }).less(len_sq) {
        vector_accuracy::lemma_long_vector_has_direction(divided);
        vector_accuracy::law_direction_is_unit(divided);
        assert(mutated(vertex, scale).normal =~= vector::direction(divided));
    }
}

/// Every coordinate of a mutated position is the product of the coordinate and of the scale
/// along its axis, up to rounding, wherever the vertex is and whatever the signs. Nothing
/// overflows up to 2^127.
pub proof fn law_mutated_position_is_the_scaled_one(
    vertex: SkinnedVertex,
    scale: [Single; 3],
    axis: int,
)
    requires
        0 <= axis < 3,
        vertex.position[axis].finite(),
        scale[axis].finite(),
    ensures
        ({
            let exact = vertex.position[axis].value() * scale[axis].value();
            let got = mutated(vertex, scale).position[axis];
            &&& accuracy::size(exact) <= accuracy::limit() ==> got.finite()
            &&& got.finite() ==> accuracy::apart(got.value(), exact) <= accuracy::slack(exact)
        }),
{
    assert(axis == 0 || axis == 1 || axis == 2);
    accuracy::law_product_is_accurate(vertex.position[axis], scale[axis]);
}

/// A vertex mirrored along one axis.
pub open spec fn mirrored(v: [Single; 3], axis: int) -> [Single; 3] {
    [
        if axis == 0 { v[0].negation() } else { v[0] },
        if axis == 1 { v[1].negation() } else { v[1] },
        if axis == 2 { v[2].negation() } else { v[2] },
    ]
}

/// Both sides of a body are scaled alike: mutating the mirror image of a vertex gives the
/// mirror image of the mutated position, bit for bit.
pub proof fn law_mutation_is_symmetric(
    vertex: SkinnedVertex,
    image: SkinnedVertex,
    scale: [Single; 3],
    axis: int,
)
    requires
        scale_error(scale) is None,
        vector::finite(vertex.position),
        0 <= axis < 3,
        image.position == mirrored(vertex.position, axis),
    ensures
        mutated(image, scale).position == mirrored(mutated(vertex, scale).position, axis),
{
    assert(axis == 0 || axis == 1 || axis == 2);
    single::law_product_is_a_number(vertex.position[axis], scale[axis]);
    single::law_product_of_negation(vertex.position[axis], scale[axis]);
    assert(mutated(image, scale).position =~= mirrored(mutated(vertex, scale).position, axis));
}

/// The squared length of a normal divided by the scale.
pub open spec fn exact_square(normal: [Single; 3], scale: [Single; 3]) -> real {
    let x = normal[0].value() / scale[0].value();
    let y = normal[1].value() / scale[1].value();
    let z = normal[2].value() / scale[2].value();
    x * x + y * y + z * z
}

/// A mutated normal is that of the scaled surface: a unit vector that points where the
/// normal divided by the scale points, so that what was perpendicular to it before the
/// scaling is so after it. That is so wherever the square of the divided normal's length
/// is more than 0.0001; where it is less, the normal stays as it was.
pub proof fn law_mutated_normal_is_that_of_the_scaled_surface(
    vertex: SkinnedVertex,
    scale: [Single; 3],
)
    requires
        scale_error(scale) is None,
        vector::finite(vertex.normal),
        forall|axis: int|
            0 <= axis < 3 ==> accuracy::size(
                (#[trigger] vertex.normal[axis]).value() / scale[axis].value(),
            ) <= 0x1000_0000_0000_0000 as real,
    ensures
        9990 as real * exact_square(vertex.normal, scale) >= 1 as real ==> {
            &&& vector_accuracy::is_unit(mutated(vertex, scale).normal)
            &&& vector_accuracy::points_along(
                mutated(vertex, scale).normal,
                vertex.normal[0].value() / scale[0].value(),
                vertex.normal[1].value() / scale[1].value(),
                vertex.normal[2].value() / scale[2].value(),
                4 as real * accuracy::roundoff(),
            )
        },
        10010 as real * exact_square(vertex.normal, scale) <= 1 as real ==> mutated(
            vertex,
            scale,
        ).normal == vertex.normal,
{
    let n = vertex.normal;
    let d = divided_normal(n, scale);
    let u = accuracy::roundoff();
    let h = accuracy::smallest_step();
    let big = 0x1000_0000_0000_0000 as real;
    let x = n[0].value() / scale[0].value();
    let y = n[1].value() / scale[1].value();
    let z = n[2].value() / scale[2].value();
    assert(accuracy::size(n[0].value() / scale[0].value()) <= big);
    assert(accuracy::size(n[1].value() / scale[1].value()) <= big);
    assert(accuracy::size(n[2].value() / scale[2].value()) <= big);
    lemma_divided_component(n[0], scale[0]);
    lemma_divided_component(n[1], scale[1]);
    lemma_divided_component(n[2], scale[2]);
    vector_accuracy::lemma_dot_is_finite(d);
    vector_accuracy::lemma_dot_with_itself(d);
    vector_accuracy::lemma_step_in_numbers();
    let exact = exact_square(n, scale);
    let near = vector_accuracy::exact_dot(d, d);
    let len_sq = vector::dot(d, d);
    let tiny = 1 as real / 0x4000_0000 as real;
    vector_accuracy::lemma_square_near(d[0].value(), x);
    vector_accuracy::lemma_square_near(d[1].value(), y);
    vector_accuracy::lemma_square_near(d[2].value(), z);
    vector_accuracy::lemma_square_not_negative(x);
    vector_accuracy::lemma_square_not_negative(y);
    vector_accuracy::lemma_square_not_negative(z);
    let small = Single { bits: MIN_NORMAL_LENGTH_SQ_BITS };
    accuracy::law_ten_thousandth();
    accuracy::law_order_is_that_of_the_values(small, len_sq);
    let s = len_sq.value();
    vector_accuracy::lemma_part(near);
    vector_accuracy::lemma_part(x * x);
    vector_accuracy::lemma_part(y * y);
    vector_accuracy::lemma_part(z * z);
    assert(accuracy::apart(near, exact) <= exact / 0x40_0000 as real + 3 as real * tiny);
    if 9990 as real * exact >= 1 as real {
        assert(s > small.value());
        lemma_threshold_key(small, len_sq);
        vector_accuracy::lemma_long_vector_has_direction(d);
        vector_accuracy::law_direction_is_unit(d);
        assert(mutated(vertex, scale).normal =~= vector::direction(d));
        vector_accuracy::lemma_direction_along(d);
        let k = Single::one().quotient(vector::length(d)).value();
        let got = vector::direction(d);
        assert(16 as real * accuracy::size(k * d[0].value()) <= 17 as real);
        assert(16 as real * accuracy::size(k * d[1].value()) <= 17 as real);
        assert(16 as real * accuracy::size(k * d[2].value()) <= 17 as real);
        lemma_along_component(got[0].value(), k, d[0].value(), x);
        lemma_along_component(got[1].value(), k, d[1].value(), y);
        lemma_along_component(got[2].value(), k, d[2].value(), z);
        assert(vector_accuracy::is_multiple(got, k, x, y, z, 4 as real * u));
    }
    if 10010 as real * exact <= 1 as real {
        assert(s <= small.value());
    }
}

proof fn lemma_threshold_key(small: Single, len_sq: Single)
    requires
        small == (Single { bits: MIN_NORMAL_LENGTH_SQ_BITS }),
        small.less(len_sq),
    ensures
        len_sq.key() >= 0x2980_0000,
{
}

/// A component divided by the scale, with the rounding that goes into it.
proof fn lemma_divided_component(n: Single, s: Single)
    requires
        n.finite(),
        is_valid_component(s),
        accuracy::size(n.value() / s.value()) <= 0x1000_0000_0000_0000 as real,
    ensures
        n.quotient(s).finite(),
        accuracy::size(n.quotient(s).value()) <= 0x2000_0000_0000_0000 as real,
        accuracy::apart(n.quotient(s).value(), n.value() / s.value()) <= accuracy::roundoff()
            * accuracy::size(n.value() / s.value()) + accuracy::smallest_step(),
{
    vector_accuracy::lemma_step_is_tiny();
    vector_accuracy::lemma_large();
    accuracy::law_quotient_is_accurate(n, s);
    let m = accuracy::size(n.value() / s.value());
    let u = accuracy::roundoff();
    let h = accuracy::smallest_step();
    vector_accuracy::lemma_part(m);
    assert(u * m + h <= 0x1000_0000_0000_0000 as real);
}

/// A component of a direction, next to the exact component times the same factor.
proof fn lemma_along_component(got: real, k: real, near: real, exact: real)
    requires
        k > 0 as real,
        k * accuracy::smallest_step() <= accuracy::roundoff() * accuracy::roundoff(),
        16 as real * accuracy::size(k * near) <= 17 as real,
        8 as real * accuracy::apart(got, k * near) <= 9 as real * accuracy::roundoff(),
        accuracy::apart(near, exact) <= accuracy::roundoff() * accuracy::size(exact)
            + accuracy::smallest_step(),
    ensures
        accuracy::apart(got, k * exact) <= 4 as real * accuracy::roundoff(),
{
    let u = accuracy::roundoff();
    let h = accuracy::smallest_step();
    let m = accuracy::size(exact);
    let e = near - exact;
    let bound = u * m + h;
    vector_accuracy::lemma_multiply_order(k, e, bound);
    vector_accuracy::lemma_multiply_order(k, -e, bound);
    assert(k * e == k * near - k * exact) by (nonlinear_arith)
        requires
            e == near - exact,
    ;
    assert(k * -e == -(k * e)) by (nonlinear_arith);
    let km = k * m;
    vector_accuracy::lemma_part(km);
    assert(k * bound == u * (k * m) + k * h) by (nonlinear_arith)
        requires
            bound == u * m + h,
    ;
    let kx = k * exact;
    assert(km == accuracy::size(kx)) by (nonlinear_arith)
        requires
            km == k * m,
            kx == k * exact,
            k > 0 as real,
            m == if exact < 0 as real { -exact } else { exact },
            accuracy::size(kx) == if kx < 0 as real { -kx } else { kx },
    ;
    vector_accuracy::lemma_part(u);
    assert(k * h <= u / 0x100_0000 as real);
    assert(km <= 9 as real / 8 as real);
}

/// A scale is valid if and only if each component is a finite number above zero. What is
/// reported otherwise is the first component that is not.
pub proof fn law_valid_scales(scale: [Single; 3])
    ensures
        scale_error(scale) is None <==> forall|axis: int|
            0 <= axis < 3 ==> (#[trigger] scale[axis]).finite() && scale[axis].value() > 0 as real,
        scale_error(scale) matches Some(BodyMutationError::InvalidScale { component_index, value })
            ==> {
            &&& component_index < 3
            &&& value == scale[component_index as int]
            &&& !(value.finite() && value.value() > 0 as real)
            &&& forall|axis: int|
                0 <= axis < component_index ==> (#[trigger] scale[axis]).finite()
                    && scale[axis].value() > 0 as real
        },
{
    lemma_valid_component(scale[0]);
    lemma_valid_component(scale[1]);
    lemma_valid_component(scale[2]);
    if scale_error(scale) is None {
        assert forall|axis: int| 0 <= axis < 3 implies (#[trigger] scale[axis]).finite()
            && scale[axis].value() > 0 as real by {
            assert(axis == 0 || axis == 1 || axis == 2);
        }
    }
}

proof fn lemma_valid_component(c: Single)
    ensures
        is_valid_component(c) <==> c.finite() && c.value() > 0 as real,
{
    if c.finite() {
        accuracy::law_signs_and_constants(c);
        accuracy::law_order_is_that_of_the_values(Single::positive_zero(), c);
    }
}

} // verus!
