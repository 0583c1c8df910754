use anthroforge_core::body_mutation::mutate_skin_vertices;
use anthroforge_core::clothing_deformer::{
    build_cloth_anchors, build_cloth_anchors_for_part, build_cloth_anchors_with_tree,
    build_skin_kdtree, dna_scale_from_character_dna, fit_clothing_to_character,
    fit_clothing_to_skin, raw_parts_to_slice, ClothAnchor, ClothingDeformerError,
};
use anthroforge_core::error::{anthroforge_last_error, set_last_error, LastError};
use anthroforge_core::kd_tree::KdTree;
use anthroforge_core::single::Single;
use anthroforge_core::vector::{v_normalize, v_squared_distance};
use anthroforge_core::vertex::{CharacterDNA, SkinnedVertex};

fn s(x: f32) -> Single {
    Single { bits: x.to_bits() }
}

fn s3(v: [f32; 3]) -> [Single; 3] {
    v.map(s)
}

fn f(x: Single) -> f32 {
    f32::from_bits(x.bits)
}

fn v(position: [f32; 3], normal: [f32; 3]) -> SkinnedVertex {
    SkinnedVertex {
        position: s3(position),
        normal: s3(normal),
        uv: [s(0.0), s(0.0)],
        bone_indices: [0, 0, 0, 0],
        bone_weights: [s(0.0), s(0.0), s(0.0), s(0.0)],
    }
}

fn anchor(target: u32, offset: [f32; 3], clearance: f32) -> ClothAnchor {
    ClothAnchor {
        target_skin_vertex_index: target,
        local_offset: s3(offset),
        thickness_clearance: s(clearance),
    }
}

#[test]
fn kd_tree_nearest_matches_brute_force() {
    let positions: Vec<[Single; 3]> = vec![
        s3([0.0, 0.0, 0.0]),
        s3([1.0, 0.0, 0.0]),
        s3([0.0, 5.0, 0.0]),
        s3([-3.0, -1.0, 2.0]),
        s3([10.0, 10.0, 10.0]),
        s3([0.1, 0.1, 0.1]),
    ];
    let tree = KdTree::build(&positions).expect("non-empty input builds a tree");

    let queries = [
        s3([0.0, 0.0, 0.0]),
        s3([0.9, 0.1, -0.2]),
        s3([9.0, 9.0, 9.0]),
        s3([-2.5, -1.0, 1.9]),
    ];
    for &q in &queries {
        let got = tree.nearest(&positions, q);
        let want = positions
            .iter()
            .enumerate()
            .min_by(|(_, a), (_, b)| {
                f(v_squared_distance(**a, q))
                    .partial_cmp(&f(v_squared_distance(**b, q)))
                    .unwrap()
            })
            .map(|(i, _)| i as u32)
            .unwrap();
        assert_eq!(got, want, "mismatch for query {q:?}");
    }
}

#[test]
fn kd_tree_finds_a_closest_point_among_many() {
    let mut state: u64 = 0x1234_5678_9abc_def1;
    let mut next = || {
        state ^= state << 13;
        state ^= state >> 7;
        state ^= state << 17;
        ((state >> 33) % 41) as f32 * 0.25 - 5.0
    };
    // A coarse grid, so that many coordinates are equal.
    let positions: Vec<[Single; 3]> = (0..300).map(|_| s3([next(), next(), next()])).collect();
    let tree = KdTree::build(&positions).expect("non-empty");
    for _ in 0..100 {
        let q = s3([next() + 0.1, next(), next() - 0.05]);
        let got = f(v_squared_distance(positions[tree.nearest(&positions, q) as usize], q));
        for p in &positions {
            assert!(got <= f(v_squared_distance(*p, q)));
        }
    }
}

#[test]
fn no_positions_make_no_tree() {
    let positions: Vec<[Single; 3]> = vec![];
    assert!(KdTree::build(&positions).is_none());
}

#[test]
fn build_cloth_anchors_rejects_empty_inputs() {
    let skin = vec![v([0.0, 0.0, 0.0], [0.0, 1.0, 0.0])];
    let cloth = vec![v([0.0, 0.1, 0.0], [0.0, 1.0, 0.0])];

    assert!(matches!(
        build_cloth_anchors(&cloth, &[]),
        Err(ClothingDeformerError::EmptySkinMesh)
    ));
    assert!(matches!(
        build_cloth_anchors(&[], &skin),
        Err(ClothingDeformerError::EmptyClothMesh)
    ));
}

#[test]
fn build_cloth_anchors_rejects_positions_that_are_not_finite() {
    let good = v([0.0, 0.0, 0.0], [0.0, 1.0, 0.0]);
    let mut bad = good;
    bad.position[1] = s(f32::NAN);
    let mut worse = good;
    worse.position[2] = s(f32::NEG_INFINITY);

    let err = build_cloth_anchors(&[bad], &[good, worse, bad]).expect_err("skin comes first");
    assert_eq!(
        err,
        ClothingDeformerError::NonFiniteVertexPosition { mesh: "skin", vertex_index: 1 }
    );
    assert_eq!(
        err.message(),
        "skin vertex[1] has a non-finite position component (NaN or infinite)"
    );
    let err = build_cloth_anchors(&[good, good, bad], &[good]).expect_err("cloth");
    assert_eq!(
        err,
        ClothingDeformerError::NonFiniteVertexPosition { mesh: "cloth", vertex_index: 2 }
    );
}

#[test]
fn build_cloth_anchors_computes_expected_offset_and_clearance() {
    // A single skin vertex at the origin with an "up" normal, and one
    // cloth vertex authored 0.05 units directly above it.
    let skin = vec![v([0.0, 0.0, 0.0], [0.0, 1.0, 0.0])];
    let cloth = vec![v([0.0, 0.05, 0.0], [0.0, 1.0, 0.0])];

    let anchors = build_cloth_anchors(&cloth, &skin).expect("build should succeed");
    assert_eq!(anchors.len(), 1);
    assert_eq!(anchors[0].target_skin_vertex_index, 0);
    assert_eq!(anchors[0].local_offset, s3([0.0, 0.05, 0.0]));
    assert!((f(anchors[0].thickness_clearance) - 0.05).abs() < 1e-6);
}

#[test]
fn clearance_is_never_negative_and_falls_back_to_the_offset_length() {
    let inside = v([0.0, -0.5, 0.0], [0.0, 1.0, 0.0]);
    let skin = vec![v([0.0, 0.0, 0.0], [0.0, 1.0, 0.0])];
    let anchors = build_cloth_anchors(&[inside], &skin).expect("build");
    assert_eq!(anchors[0].thickness_clearance, s(0.0));

    let flat = vec![v([0.0, 0.0, 0.0], [0.0, 0.0, 0.0])];
    let anchors = build_cloth_anchors(&[v([3.0, 4.0, 0.0], [0.0, 1.0, 0.0])], &flat).expect("build");
    assert_eq!(anchors[0].thickness_clearance, s(5.0));
}

/// A small, varied multi-vertex skin/cloth fixture shared by the
/// `SkinKdTree`-path tests below.
fn multi_vertex_skin_and_cloth() -> (Vec<SkinnedVertex>, Vec<SkinnedVertex>) {
    let skin = vec![
        v([0.0, 0.0, 0.0], [0.0, 1.0, 0.0]),
        v([1.0, 0.0, 0.0], [1.0, 0.0, 0.0]),
        v([2.0, 0.0, 0.0], [0.0, 1.0, 0.0]),
        v([3.0, 0.0, 0.0], [1.0, 0.0, 0.0]),
        v([4.0, 0.0, 0.0], [0.0, 1.0, 0.0]),
        v([5.0, 0.0, 0.0], [1.0, 0.0, 0.0]),
        v([6.0, 0.0, 0.0], [0.0, 1.0, 0.0]),
        v([7.0, 0.0, 0.0], [1.0, 0.0, 0.0]),
        v([8.0, 0.0, 0.0], [0.0, 1.0, 0.0]),
        v([9.0, 0.0, 0.0], [1.0, 0.0, 0.0]),
    ];
    let cloth = vec![
        v([0.1, 0.2, 0.0], [0.0, 1.0, 0.0]),
        v([2.9, 0.3, 0.0], [1.0, 0.0, 0.0]),
        v([5.05, -0.1, 0.0], [0.0, 1.0, 0.0]),
        v([8.4, 0.05, 0.0], [1.0, 0.0, 0.0]),
    ];
    (skin, cloth)
}

#[test]
fn skin_kdtree_stride_one_matches_build_cloth_anchors_exactly() {
    let (skin, cloth) = multi_vertex_skin_and_cloth();

    let direct = build_cloth_anchors(&cloth, &skin).expect("direct build should succeed");

    let tree = build_skin_kdtree(&skin, 1).expect("stride-1 tree build should succeed");
    let via_tree = build_cloth_anchors_with_tree(&cloth, &skin, &tree)
        .expect("tree-based build should succeed");

    assert_eq!(direct, via_tree);
    let targets: Vec<u32> = direct.iter().map(|a| a.target_skin_vertex_index).collect();
    assert_eq!(targets, vec![0, 3, 5, 8]);
}

#[test]
fn of_equally_close_points_the_search_finds_the_first_it_meets() {
    let origin = s3([0.0, 0.0, 0.0]);
    let nearest = |points: &[[f32; 3]]| {
        let positions: Vec<[Single; 3]> = points.iter().map(|&p| s3(p)).collect();
        KdTree::build(&positions).expect("points").nearest(&positions, origin)
    };
    // The one at the top is the one that half of the points come before.
    assert_eq!(nearest(&[[-1.0, 0.0, 0.0], [1.0, 0.0, 0.0]]), 1);
    assert_eq!(nearest(&[[1.0, 0.0, 0.0], [-1.0, 0.0, 0.0]]), 0);
    assert_eq!(nearest(&[[1.0, 0.0, 0.0], [0.0, 1.0, 0.0], [-1.0, 0.0, 0.0]]), 1);
    // Points in one place are told apart by their indices.
    assert_eq!(nearest(&[[0.0, 0.0, 0.0]; 3]), 1);
    assert_eq!(nearest(&[[0.0, 0.0, 0.0]; 4]), 2);
}

#[test]
fn stride_one_tree_matches_direct_anchors_where_vertices_are_equally_close() {
    let up = [0.0, 1.0, 0.0];
    let mut skin = Vec::new();
    for i in 0..4 {
        for x in [-1.0, 1.0] {
            for z in [1.0, -1.0] {
                skin.push(v([x, (i % 2) as f32, z], up));
            }
        }
    }
    let cloth = vec![v([0.0, 0.5, 0.0], up), v([0.0, 0.0, 0.0], up), v([1.0, 2.0, 0.0], up)];
    let direct = build_cloth_anchors(&cloth, &skin).expect("direct");
    let tree = build_skin_kdtree(&skin, 1).expect("tree");
    assert_eq!(build_cloth_anchors_with_tree(&cloth, &skin, &tree).expect("by tree"), direct);
    let again = build_skin_kdtree(&skin, 0).expect("tree");
    assert_eq!(build_cloth_anchors_with_tree(&cloth, &skin, &again).expect("by tree"), direct);
}

#[test]
fn build_skin_kdtree_decimates_and_maps_indices_correctly() {
    let (skin, _cloth) = multi_vertex_skin_and_cloth();
    assert!(skin.len() >= 8);

    let tree = build_skin_kdtree(&skin, 4).expect("decimated tree build should succeed");

    let expected_sample_count = skin.len().div_ceil(4);
    assert_eq!(tree.sample_positions.len(), expected_sample_count);
    assert_eq!(tree.sample_to_full_index.len(), expected_sample_count);

    for &full_index in &tree.sample_to_full_index {
        assert!(
            (full_index as usize) < skin.len(),
            "sample_to_full_index entry {full_index} is out of range for a {}-vertex skin buffer",
            skin.len()
        );
    }
    // Every 4th vertex starting at 0: 0, 4, 8.
    assert_eq!(tree.sample_to_full_index, vec![0, 4, 8]);
}

#[test]
fn a_stride_of_zero_counts_as_one() {
    let (skin, _cloth) = multi_vertex_skin_and_cloth();
    let tree = build_skin_kdtree(&skin, 0).expect("build");
    assert_eq!(tree.sample_to_full_index, (0..10).collect::<Vec<u32>>());
    let tree = build_skin_kdtree(&skin, usize::MAX).expect("build");
    assert_eq!(tree.sample_to_full_index, vec![0]);
}

#[test]
fn decimated_tree_anchors_reference_valid_full_resolution_indices() {
    let (skin, cloth) = multi_vertex_skin_and_cloth();

    let tree = build_skin_kdtree(&skin, 4).expect("decimated tree build should succeed");
    let anchors = build_cloth_anchors_with_tree(&cloth, &skin, &tree)
        .expect("tree-based build should succeed");

    assert_eq!(anchors.len(), cloth.len());
    for anchor in &anchors {
        assert!(
            (anchor.target_skin_vertex_index as usize) < skin.len(),
            "anchor targets skin vertex {}, out of range for a {}-vertex skin buffer",
            anchor.target_skin_vertex_index,
            skin.len()
        );
    }
}

#[test]
fn fit_applies_scale_and_copies_skinning_data() {
    let skin = vec![v([0.0, 0.0, 0.0], [0.0, 1.0, 0.0])];
    let mut skin_mutated = skin.clone();
    skin_mutated[0].position = s3([0.0, 2.0, 0.0]); // character grew taller
    skin_mutated[0].bone_indices = [7, 0, 0, 0];
    skin_mutated[0].bone_weights = [s(1.0), s(0.0), s(0.0), s(0.0)];

    let anchors = vec![anchor(0, [0.0, 0.1, 0.0], 0.1)];
    let mut cloth = vec![v([0.0, 0.1, 0.0], [0.0, 1.0, 0.0])];

    fit_clothing_to_skin(&skin_mutated, &mut cloth, &anchors, s3([1.0, 2.0, 1.0]), s(0.0))
        .expect("fit should succeed");

    // V'_skin (0,2,0) + (O ⊙ S) = (0,2,0) + (0, 0.2, 0) = (0, 2.2, 0),
    // and the push-out guard should be a no-op since the rough fit
    // already sits exactly at the required clearance.
    assert!((f(cloth[0].position[1]) - 2.2).abs() < 1e-5);
    assert_eq!(cloth[0].bone_indices, [7, 0, 0, 0]);
    assert_eq!(cloth[0].bone_weights, [s(1.0), s(0.0), s(0.0), s(0.0)]);
}

#[test]
fn fit_pushes_out_clothing_that_would_clip() {
    let skin_mutated = vec![v([0.0, 0.0, 0.0], [0.0, 1.0, 0.0])];
    let anchors = vec![anchor(0, [0.0, 0.1, 0.0], 0.1)];
    // Rough fit alone would land exactly on the skin surface (scale
    // collapses the offset to zero), which is inside the required
    // 0.1 clearance -> push-out must kick in.
    let mut cloth = vec![v([0.0, 0.1, 0.0], [0.0, 1.0, 0.0])];

    fit_clothing_to_skin(&skin_mutated, &mut cloth, &anchors, s3([1.0, 0.0, 1.0]), s(0.01))
        .expect("fit should succeed");

    assert!(
        (f(cloth[0].position[1]) - 0.11).abs() < 1e-5,
        "expected push-out to land at clearance + epsilon, got {:?}",
        cloth[0].position
    );
}

#[test]
fn fit_rejects_anchor_count_mismatch() {
    let skin = vec![v([0.0, 0.0, 0.0], [0.0, 1.0, 0.0])];
    let anchors = vec![]; // zero anchors for one cloth vertex
    let mut cloth = vec![v([0.0, 0.1, 0.0], [0.0, 1.0, 0.0])];

    let err = fit_clothing_to_skin(&skin, &mut cloth, &anchors, s3([1.0, 1.0, 1.0]), s(0.0))
        .expect_err("mismatched lengths must error");
    assert!(matches!(err, ClothingDeformerError::AnchorCountMismatch { .. }));
    assert_eq!(
        err.message(),
        "anchor count (0) does not match cloth vertex count (1); \
         anchors are positional and must have been built for this exact clothing buffer"
    );
}

#[test]
fn fit_rejects_out_of_range_anchor() {
    let skin = vec![v([0.0, 0.0, 0.0], [0.0, 1.0, 0.0])];
    let anchors = vec![anchor(99, [0.0, 0.1, 0.0], 0.1)]; // out of range
    let mut cloth = vec![v([0.0, 0.1, 0.0], [0.0, 1.0, 0.0])];

    let err = fit_clothing_to_skin(&skin, &mut cloth, &anchors, s3([1.0, 1.0, 1.0]), s(0.0))
        .expect_err("out-of-range anchor must error");
    assert!(matches!(err, ClothingDeformerError::AnchorSkinIndexOutOfRange { .. }));
    assert_eq!(
        err.message(),
        "anchor for cloth vertex[0] targets skin vertex index 99, but the skin buffer only has \
         1 vertices (anchors were likely built against a different skin mesh)"
    );
}

#[test]
fn fit_rejects_an_epsilon_that_is_not_finite() {
    let skin = vec![v([0.0, 0.0, 0.0], [0.0, 1.0, 0.0])];
    let anchors = vec![anchor(0, [0.0, 0.1, 0.0], 0.1)];
    let mut cloth = vec![v([0.0, 0.1, 0.0], [0.0, 1.0, 0.0])];
    for epsilon in [f32::NAN, f32::INFINITY] {
        let err = fit_clothing_to_skin(&skin, &mut cloth, &anchors, s3([1.0; 3]), s(epsilon))
            .expect_err("not finite");
        assert_eq!(err, ClothingDeformerError::NonFiniteClearanceEpsilon);
        assert_eq!(err.message(), "clearance_epsilon was NaN or infinite");
    }
    assert_eq!(cloth[0].position, s3([0.0, 0.1, 0.0]));
}

#[test]
fn every_vertex_is_fitted_as_single_precision_arithmetic_has_it() {
    let mut state: u64 = 0xfeed_beef_1234_5678;
    let mut next = || {
        state ^= state << 13;
        state ^= state >> 7;
        state ^= state << 17;
        ((state >> 40) as f32) / 8_388_608.0 - 1.0
    };
    let skin: Vec<SkinnedVertex> = (0..50)
        .map(|_| v([next(), next(), next()], [next(), next(), next()]))
        .collect();
    let anchors: Vec<ClothAnchor> = (0..400u32)
        .map(|i| anchor(i % 50, [next() * 0.1, next() * 0.1, next() * 0.1], next().abs() * 0.2))
        .collect();
    let before: Vec<SkinnedVertex> = (0..400).map(|_| v([9.0, 9.0, 9.0], [0.0, 1.0, 0.0])).collect();
    let mut cloth = before.clone();
    let scale = [1.05f32, 1.1, 0.95];
    let epsilon = 0.003f32;
    fit_clothing_to_skin(&skin, &mut cloth, &anchors, s3(scale), s(epsilon)).expect("fit");
    for (i, c) in cloth.iter().enumerate() {
        let a = &anchors[i];
        let target = &skin[a.target_skin_vertex_index as usize];
        let base = target.position.map(f);
        let offset = a.local_offset.map(f);
        let n = target.normal.map(f);
        let mut p = [0.0f32; 3];
        for k in 0..3 {
            p[k] = base[k] + offset[k] * scale[k];
        }
        let len = (n[0] * n[0] + n[1] * n[1] + n[2] * n[2]).sqrt();
        if len.is_finite() && len > f32::EPSILON {
            let inv = 1.0 / len;
            let u = [n[0] * inv, n[1] * inv, n[2] * inv];
            let d = [p[0] - base[0], p[1] - base[1], p[2] - base[2]];
            let distance = d[0] * u[0] + d[1] * u[1] + d[2] * u[2];
            let safe = f(a.thickness_clearance) + epsilon;
            if distance < safe {
                let correction = safe - distance;
                for k in 0..3 {
                    p[k] = p[k] + u[k] * correction;
                }
            }
        }
        assert_eq!(c.position, s3(p), "vertex {i}");
        assert_eq!(c.normal, before[i].normal);
    }
}

#[test]
fn a_degenerate_normal_leaves_the_rough_fit_standing() {
    let skin = vec![v([1.0, 2.0, 3.0], [0.0, 0.0, 0.0])];
    let anchors = vec![anchor(0, [0.5, 0.25, 0.0], 10.0)];
    let mut cloth = vec![v([0.0, 0.0, 0.0], [0.0, 1.0, 0.0])];
    fit_clothing_to_skin(&skin, &mut cloth, &anchors, s3([2.0, 1.0, 1.0]), s(0.0)).expect("fit");
    assert_eq!(cloth[0].position, s3([2.0, 2.25, 3.0]));
    assert!(v_normalize(s3([0.0, 0.0, 0.0])).is_none());
    assert_eq!(v_normalize(s3([0.0, 4.0, 0.0])), Some(s3([0.0, 1.0, 0.0])));
}

#[test]
fn pushing_out_moves_along_the_normal_only_outward() {
    let skin = vec![v([0.3, 0.7, -0.2], [0.6, 0.8, 0.0])];
    let anchors = vec![anchor(0, [-0.02, -0.05, 0.01], 0.04)];
    let mut cloth = vec![v([0.0, 0.0, 0.0], [0.0, 1.0, 0.0])];
    fit_clothing_to_skin(&skin, &mut cloth, &anchors, s3([1.0; 3]), s(0.01)).expect("fit");
    let rough = [0.3f32 - 0.02, 0.7f32 - 0.05, -0.2f32 + 0.01];
    let after = cloth[0].position.map(f);
    assert!(after[0] > rough[0]);
    assert!(after[1] > rough[1]);
    assert_eq!(after[2], rough[2]);
    let distance = (after[0] - 0.3) * 0.6 + (after[1] - 0.7) * 0.8;
    assert!((distance - 0.05).abs() < 1e-6);
}

fn make_dna(height_modifier: f32, weight_modifier: f32) -> CharacterDNA {
    CharacterDNA {
        seed: 0,
        height_modifier: s(height_modifier),
        weight_modifier: s(weight_modifier),
        head_id: 0,
        torso_id: 0,
        equipped_clothing_ids: vec![],
    }
}

#[test]
fn ffi_build_and_free_round_trip() {
    let skin = vec![v([0.0, 0.0, 0.0], [0.0, 1.0, 0.0])];
    let cloth = vec![v([0.0, 0.05, 0.0], [0.0, 1.0, 0.0])];

    let anchors = build_cloth_anchors_for_part(
        &mut LastError::new(),
        Some(&cloth),
        cloth.len() as u32,
        Some(&skin),
        skin.len() as u32,
    )
    .expect("valid input should not fail");

    assert_eq!(anchors.len(), 1);
    assert_eq!(anchors[0].target_skin_vertex_index, 0);
    assert_eq!(anchors[0].local_offset, s3([0.0, 0.05, 0.0]));
}

#[test]
fn ffi_build_rejects_empty_input_with_null_return() {
    let skin: Vec<SkinnedVertex> = vec![];
    let cloth = vec![v([0.0, 0.05, 0.0], [0.0, 1.0, 0.0])];

    let result = build_cloth_anchors_for_part(&mut LastError::new(), Some(&cloth), cloth.len() as u32, Some(&skin), 0);
    assert_eq!(
        result.expect_err("empty skin buffer must fail"),
        "default skin vertex buffer was empty; nothing to anchor clothing vertices to"
    );
    let result = build_cloth_anchors_for_part(&mut LastError::new(), None, 0, Some(&cloth), 1);
    assert_eq!(
        result.expect_err("a null pointer with a count of 0 is an empty buffer"),
        "clothing vertex buffer was empty; nothing to build anchors for"
    );
}

#[test]
fn ffi_build_rejects_null_pointer_with_nonzero_count() {
    let skin = vec![v([0.0, 0.0, 0.0], [0.0, 1.0, 0.0])];

    let result = build_cloth_anchors_for_part(
        &mut LastError::new(),
        None,
        3, // nonzero count paired with a null pointer
        Some(&skin),
        skin.len() as u32,
    );
    assert_eq!(
        result.expect_err("null ptr + nonzero count must fail, not dereference"),
        "cloth_vertices_ptr was null with nonzero count 3"
    );
    let result = build_cloth_anchors_for_part(&mut LastError::new(), Some(&skin), 1, None, 12);
    assert_eq!(
        result.expect_err("null skin"),
        "default_skin_vertices_ptr was null with nonzero count 12"
    );
}

#[test]
fn ffi_fit_moves_cloth_and_reports_success() {
    let mut skin_mutated = vec![v([0.0, 0.0, 0.0], [0.0, 1.0, 0.0])];
    skin_mutated[0].position = s3([0.0, 2.0, 0.0]); // character grew taller
    skin_mutated[0].bone_indices = [7, 0, 0, 0];
    skin_mutated[0].bone_weights = [s(1.0), s(0.0), s(0.0), s(0.0)];

    let anchors = vec![anchor(0, [0.0, 0.1, 0.0], 0.1)];
    let mut cloth = vec![v([0.0, 0.1, 0.0], [0.0, 1.0, 0.0])];

    // height_modifier=2.0, weight_modifier=1.0 -> dna_scale [1,2,1] via
    // `dna_scale_from_character_dna`, which this call exercises
    // end-to-end rather than only through its own unit test.
    let dna = make_dna(2.0, 1.0);

    let ok = fit_clothing_to_character(
        &mut LastError::new(),
        Some(&skin_mutated),
        skin_mutated.len() as u32,
        false,
        &mut cloth,
        1,
        Some(&anchors),
        anchors.len() as u32,
        Some(&dna),
        s(0.0),
    );
    assert!(ok.is_ok(), "valid input should succeed");

    assert!((f(cloth[0].position[1]) - 2.2).abs() < 1e-5);
    assert_eq!(cloth[0].bone_indices, [7, 0, 0, 0]);
    assert_eq!(cloth[0].bone_weights, [s(1.0), s(0.0), s(0.0), s(0.0)]);
}

#[test]
fn ffi_fit_rejects_null_dna() {
    let skin = vec![v([0.0, 0.0, 0.0], [0.0, 1.0, 0.0])];
    let anchors = vec![anchor(0, [0.0, 0.1, 0.0], 0.1)];
    let mut cloth = vec![v([0.0, 0.1, 0.0], [0.0, 1.0, 0.0])];

    let result = fit_clothing_to_character(
        &mut LastError::new(),
        Some(&skin),
        skin.len() as u32,
        false,
        &mut cloth,
        1,
        Some(&anchors),
        anchors.len() as u32,
        None,
        s(0.0),
    );
    assert_eq!(
        result.expect_err("null dna pointer must fail, not dereference"),
        "dna pointer was null"
    );
}

#[test]
fn ffi_fit_rejects_anchor_count_mismatch() {
    let skin = vec![v([0.0, 0.0, 0.0], [0.0, 1.0, 0.0])];
    let anchors: Vec<ClothAnchor> = vec![]; // zero anchors for one cloth vertex
    let mut cloth = vec![v([0.0, 0.1, 0.0], [0.0, 1.0, 0.0])];
    let dna = make_dna(1.0, 1.0);

    let result = fit_clothing_to_character(
        &mut LastError::new(),
        Some(&skin),
        skin.len() as u32,
        false,
        &mut cloth,
        1,
        Some(&anchors),
        0,
        Some(&dna),
        s(0.0),
    );
    assert!(result.is_err(), "mismatched anchor/cloth counts must surface as a failure");
}

#[test]
fn ffi_fit_null_cloth_with_zero_count_is_a_noop_success() {
    let skin = vec![v([0.0, 0.0, 0.0], [0.0, 1.0, 0.0])];
    let anchors: Vec<ClothAnchor> = vec![];
    let dna = make_dna(1.0, 1.0);

    let result = fit_clothing_to_character(
        &mut LastError::new(),
        Some(&skin),
        skin.len() as u32,
        true,
        &mut [],
        0,
        Some(&anchors),
        0,
        Some(&dna),
        s(0.0),
    );
    assert!(result.is_ok(), "null cloth pointer with zero count is a valid no-op, not an error");
    let result =
        fit_clothing_to_character(&mut LastError::new(), None, 0, true, &mut [], 5, None, 0, Some(&dna), s(0.0));
    assert_eq!(
        result.expect_err("null cloth with a count"),
        "cloth_vertices_ptr was null with nonzero cloth_vertex_count"
    );
}

#[test]
fn character_dna_equipped_clothing_fields_round_trip() {
    let ids = [101u32, 202u32];
    let dna = CharacterDNA {
        seed: 42,
        height_modifier: s(1.5),
        weight_modifier: s(0.8),
        head_id: 5,
        torso_id: 6,
        equipped_clothing_ids: ids.to_vec(),
    };

    assert_eq!(dna.equipped_clothing_ids.len(), 2);
    assert_eq!(dna.equipped_clothing_ids, [101, 202]);

    let scale = dna_scale_from_character_dna(&dna);
    assert_eq!(scale, s3([0.8, 1.5, 0.8]));
}

#[test]
fn a_pointer_with_a_count_becomes_a_slice() {
    let numbers = [1u8, 2, 3];
    assert_eq!(raw_parts_to_slice(Some(&numbers[..]), 3, "p"), Ok(&numbers[..]));
    assert_eq!(raw_parts_to_slice::<u8>(None, 0, "p"), Ok(&[][..]));
    assert_eq!(
        raw_parts_to_slice::<u8>(None, 4_294_967_295, "p"),
        Err("p was null with nonzero count 4294967295".to_string())
    );
}

#[test]
fn an_unreachable_search_failure_still_has_a_message() {
    let err = ClothingDeformerError::NearestNeighborSearchFailed { cloth_vertex_index: 10 };
    assert_eq!(
        err.message(),
        "1-NN search against the skin mesh returned no match for cloth vertex[10] \
         (internal invariant failure — the skin k-d tree should be non-empty and total)"
    );
}

#[test]
fn anchors_fit_the_garment_to_any_mutated_body() {
    let (skin, cloth) = multi_vertex_skin_and_cloth();
    let anchors = build_cloth_anchors(&cloth, &skin).expect("build");
    for scale in [[1.0, 1.0, 1.0], [0.5, 2.0, 1.5], [3.0, 0.1, 0.1]] {
        let body = mutate_skin_vertices(&skin, s3(scale)).expect("valid scale");
        let mut fitted = cloth.clone();
        fit_clothing_to_skin(&body, &mut fitted, &anchors, s3(scale), s(0.001)).expect("fit");
        for (vertex, anchor) in fitted.iter().zip(&anchors) {
            let under = &body[anchor.target_skin_vertex_index as usize];
            assert_eq!(vertex.bone_indices, under.bone_indices);
            let n = v_normalize(under.normal).expect("a direction").map(f);
            let distance: f32 =
                (0..3).map(|k| (f(vertex.position[k]) - f(under.position[k])) * n[k]).sum();
            assert!(distance >= f(anchor.thickness_clearance) + 0.001 - 1e-4);
        }
    }
}

#[test]
fn a_stale_error_does_not_outlive_the_next_call() {
    let skin = vec![v([0.0, 0.0, 0.0], [0.0, 1.0, 0.0])];
    let mut cloth = vec![v([0.0, 0.1, 0.0], [0.0, 1.0, 0.0])];
    let anchors = vec![anchor(0, [0.0, 0.1, 0.0], 0.1)];
    let dna = make_dna(1.0, 1.0);
    let mut slot = LastError::new();

    set_last_error(&mut slot, "old".to_string());
    let fitted = fit_clothing_to_character(
        &mut slot,
        Some(&skin),
        1,
        false,
        &mut cloth,
        1,
        Some(&anchors),
        1,
        Some(&dna),
        s(0.0),
    );
    assert!(fitted.is_ok());
    assert_eq!(anthroforge_last_error(&slot), None);

    set_last_error(&mut slot, "old".to_string());
    assert!(build_cloth_anchors_for_part(&mut slot, Some(&cloth), 1, Some(&skin), 1).is_ok());
    assert_eq!(anthroforge_last_error(&slot), None);

    set_last_error(&mut slot, "old".to_string());
    assert!(build_cloth_anchors_for_part(&mut slot, None, 1, None, 0).is_err());
    assert_eq!(anthroforge_last_error(&slot), None);
}

#[test]
fn a_garment_that_cannot_be_fitted_stays_as_it_was() {
    let skin = vec![v([0.0, 5.0, 0.0], [0.0, 1.0, 0.0])];
    let before = vec![v([0.0, 0.1, 0.0], [0.0, 1.0, 0.0]); 4];
    let mut cloth = before.clone();
    let anchors = vec![
        anchor(0, [0.0, 0.1, 0.0], 0.1),
        anchor(0, [0.0, 0.1, 0.0], 0.1),
        anchor(7, [0.0, 0.1, 0.0], 0.1),
        anchor(9, [0.0, 0.1, 0.0], 0.1),
    ];
    let err = fit_clothing_to_skin(&skin, &mut cloth, &anchors, s3([1.0; 3]), s(0.0))
        .expect_err("two anchors are out of range");
    assert_eq!(
        err,
        ClothingDeformerError::AnchorSkinIndexOutOfRange {
            cloth_vertex_index: 2,
            target_skin_vertex_index: 7,
            skin_vertex_count: 1,
        }
    );
    assert_eq!(cloth, before);
}
