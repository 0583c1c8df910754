use anthroforge_core::body_mutation::{mutate_skin_vertices, BodyMutationError};
use anthroforge_core::single::Single;
use anthroforge_core::vertex::SkinnedVertex;

fn s(x: f32) -> Single {
    Single { bits: x.to_bits() }
}

fn s3(v: [f32; 3]) -> [Single; 3] {
    v.map(s)
}

fn f(x: Single) -> f32 {
    f32::from_bits(x.bits)
}

fn f3(v: [Single; 3]) -> [f32; 3] {
    v.map(f)
}

fn v(position: [f32; 3], normal: [f32; 3]) -> SkinnedVertex {
    SkinnedVertex {
        position: s3(position),
        normal: s3(normal),
        uv: [s(0.25), s(0.75)],
        bone_indices: [1, 2, 3, 4],
        bone_weights: [s(0.4), s(0.3), s(0.2), s(0.1)],
    }
}

fn normal_len(n: [f32; 3]) -> f32 {
    (n[0] * n[0] + n[1] * n[1] + n[2] * n[2]).sqrt()
}

#[test]
fn identity_scale_leaves_positions_unchanged_and_normals_unit_length() {
    let input = vec![
        v([1.0, 2.0, 3.0], [0.0, 1.0, 0.0]),
        v([-4.0, 0.5, 7.0], [1.0, 0.0, 0.0]),
    ];

    let out = mutate_skin_vertices(&input, s3([1.0, 1.0, 1.0])).expect("identity scale is valid");

    assert_eq!(out.len(), input.len());
    for (o, i) in out.iter().zip(input.iter()) {
        for k in 0..3 {
            assert!((f(o.position[k]) - f(i.position[k])).abs() < 1e-6);
        }
        assert_eq!(o.position, i.position);
        assert!((normal_len(f3(o.normal)) - 1.0).abs() < 1e-5);
        assert_eq!(o.uv, i.uv);
        assert_eq!(o.bone_indices, i.bone_indices);
        assert_eq!(o.bone_weights, i.bone_weights);
    }
}

#[test]
fn non_uniform_scale_produces_expected_scaled_positions() {
    let input = vec![
        v([1.0, 1.0, 1.0], [0.0, 1.0, 0.0]),
        v([2.0, -3.0, 4.0], [0.0, 1.0, 0.0]),
        v([0.0, 0.0, 0.0], [0.0, 1.0, 0.0]),
    ];
    let scale = [2.0, 1.0, 0.5];

    let out = mutate_skin_vertices(&input, s3(scale)).expect("valid scale");

    let expected_positions = [[2.0, 1.0, 0.5], [4.0, -3.0, 2.0], [0.0, 0.0, 0.0]];
    for (o, expected) in out.iter().zip(expected_positions.iter()) {
        for k in 0..3 {
            let expected: f32 = expected[k];
            assert!(
                (f(o.position[k]) - expected).abs() < 1e-6,
                "position {:?} != expected {:?}",
                o.position,
                expected
            );
        }
    }
}

#[test]
fn normals_remain_unit_length_after_non_axis_aligned_non_uniform_scale() {
    // A non-axis-aligned unit normal.
    let raw = [1.0f32, 1.0, 1.0];
    let len = normal_len(raw);
    let unit = [raw[0] / len, raw[1] / len, raw[2] / len];

    let input = vec![v([0.0, 0.0, 0.0], unit)];
    let scale = [2.0, 1.0, 0.5];

    let out = mutate_skin_vertices(&input, s3(scale)).expect("valid scale");
    let normal = f3(out[0].normal);

    assert!((normal_len(normal) - 1.0).abs() < 1e-5);

    // Sanity: the transformed normal should equal normalize(unit / scale).
    let divided = [unit[0] / scale[0], unit[1] / scale[1], unit[2] / scale[2]];
    let divided_len = normal_len(divided);
    let expected = [divided[0] / divided_len, divided[1] / divided_len, divided[2] / divided_len];
    for k in 0..3 {
        assert!((normal[k] - expected[k]).abs() < 1e-5);
    }
}

#[test]
fn each_invalid_scale_component_is_rejected_with_correct_index() {
    let input = vec![v([1.0, 2.0, 3.0], [0.0, 1.0, 0.0])];

    let cases: [(usize, f32); 4] = [(0, 0.0), (1, -1.0), (2, f32::NAN), (0, f32::INFINITY)];

    for (bad_index, bad_value) in cases {
        let mut scale = [1.0f32, 1.0, 1.0];
        scale[bad_index] = bad_value;

        let result = mutate_skin_vertices(&input, s3(scale));
        match result {
            Err(BodyMutationError::InvalidScale { component_index, value }) => {
                assert_eq!(component_index, bad_index);
                if bad_value.is_nan() {
                    assert!(f(value).is_nan());
                } else {
                    assert_eq!(f(value), bad_value);
                }
            }
            Ok(_) => panic!("invalid scale must be rejected"),
        }
    }
}

#[test]
fn extreme_scale_ratio_falls_back_to_original_normal_without_nan_or_zero() {
    // A unit normal pointing purely along the axis that gets scaled by
    // 1000x. Dividing by 1000 shrinks its post-divide length to 1/1000
    // of a unit vector's — well under the near-zero-length guard's
    // threshold — which is exactly the degenerate case the fallback
    // exists to catch.
    let extreme_normal = [1.0f32, 0.0, 0.0];
    let input = vec![v([1.0, 2.0, 3.0], extreme_normal)];
    let scale = [1000.0, 0.001, 1.0];

    let out = mutate_skin_vertices(&input, s3(scale)).expect("valid scale");

    let n = f3(out[0].normal);
    assert!(
        n[0].is_finite() && n[1].is_finite() && n[2].is_finite(),
        "normal must not be NaN/inf: {n:?}"
    );
    let len = normal_len(n);
    assert!(len > 1e-6, "normal must not be zero-length: {n:?}");

    // Confirm the fallback path actually triggered: the post-divide
    // vector's squared length must indeed fall under the guard's
    // threshold for this input.
    let divided = [
        extreme_normal[0] / scale[0],
        extreme_normal[1] / scale[1],
        extreme_normal[2] / scale[2],
    ];
    let divided_len_sq =
        divided[0] * divided[0] + divided[1] * divided[1] + divided[2] * divided[2];
    assert!(
        divided_len_sq < 1e-4,
        "test setup should trigger the fallback guard, got len_sq={divided_len_sq}"
    );

    // The fallback returns the original (untransformed) normal
    // exactly, which is already unit-length here.
    assert_eq!(n, extreme_normal, "fallback path should return the original normal untouched");
    assert!((len - 1.0).abs() < 1e-6);
}

#[test]
fn input_slice_is_not_mutated() {
    let input = vec![v([1.0, 2.0, 3.0], [0.0, 1.0, 0.0])];
    let snapshot_pos = input[0].position;
    let snapshot_normal = input[0].normal;

    let _ = mutate_skin_vertices(&input, s3([2.0, 3.0, 4.0])).expect("valid scale");

    assert_eq!(input[0].position, snapshot_pos);
    assert_eq!(input[0].normal, snapshot_normal);
}

#[test]
fn mutated_vertices_are_those_of_single_precision_arithmetic() {
    let scale = [1.05f32, 1.1, 0.9];
    let normal = [0.3f32, -0.8, 0.52];
    let position = [0.1f32, 1.7, -0.33];
    let out = mutate_skin_vertices(&[v(position, normal)], s3(scale)).expect("valid scale");
    let d = [normal[0] / scale[0], normal[1] / scale[1], normal[2] / scale[2]];
    let inv = 1.0 / (d[0] * d[0] + d[1] * d[1] + d[2] * d[2]).sqrt();
    assert_eq!(
        f3(out[0].position),
        [position[0] * scale[0], position[1] * scale[1], position[2] * scale[2]]
    );
    assert_eq!(f3(out[0].normal), [d[0] * inv, d[1] * inv, d[2] * inv]);
}

#[test]
fn an_invalid_scale_is_described() {
    let err = mutate_skin_vertices(&[], s3([1.0, -2.5, 1.0])).expect_err("negative");
    let BodyMutationError::InvalidScale { value, .. } = err;
    assert_eq!(
        err.message(&format!("{}", f(value))),
        "scale[1] = -2.5 is invalid; scale components must be finite and > 0.0"
    );
}
