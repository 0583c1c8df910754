use anthroforge_core::json_numbers::has_countable_numbers;
use anthroforge_core::single::Single;
use anthroforge_core::skeleton_resolver::{
    bind_poses_match_within_tolerance, bone_name_for_global_index, contribute_global_joints,
    parse_master_skeleton_bytes, resolve_bone_indices, MasterSkeleton, NamedBone, PoseText,
    SkeletonError,
};
use anthroforge_core::vertex::{JointBindPose, SkinnedVertex};
use std::collections::HashMap;

fn s(x: f32) -> Single {
    Single { bits: x.to_bits() }
}

fn s3(v: [f32; 3]) -> [Single; 3] {
    [s(v[0]), s(v[1]), s(v[2])]
}

fn f(x: Single) -> f32 {
    f32::from_bits(x.bits)
}

fn identity_pose() -> JointBindPose {
    JointBindPose {
        translation: s3([0.0, 0.0, 0.0]),
        rotation: [s(0.0), s(0.0), s(0.0), s(1.0)],
        scale: s3([1.0, 1.0, 1.0]),
    }
}

fn test_master(names: &[(&str, u32)]) -> MasterSkeleton {
    let bones: Vec<NamedBone> = names
        .iter()
        .map(|(name, idx)| NamedBone { name: name.to_string(), global_index: *idx })
        .collect();
    MasterSkeleton::new(bones)
}

fn pose_text(pose: &JointBindPose) -> PoseText {
    PoseText {
        translation: format!("{:?}", pose.translation.map(f)),
        rotation: format!("{:?}", pose.rotation.map(f)),
        scale: format!("{:?}", pose.scale.map(f)),
    }
}

fn err_to_string(e: &SkeletonError) -> String {
    match e {
        SkeletonError::BindPoseMismatch { existing, new, .. } => {
            e.message(&pose_text(existing), &pose_text(new))
        }
        _ => e.message(&pose_text(&identity_pose()), &pose_text(&identity_pose())),
    }
}

fn vertex(bone_indices: [u16; 4], bone_weights: [f32; 4]) -> SkinnedVertex {
    SkinnedVertex {
        position: s3([1.0, 2.0, 3.0]),
        normal: s3([0.0, 1.0, 0.0]),
        uv: [s(0.25), s(0.75)],
        bone_indices,
        bone_weights: bone_weights.map(s),
    }
}

/// Two parts contributing the *same* joint name with matching parent
/// and (within tolerance) matching bind pose must both succeed, and
/// the second contribution must not disturb the first's recorded
/// data.
#[test]
fn contribute_global_joints_matching_cross_part_contribution_succeeds() {
    let mut master = test_master(&[("root", 0), ("spine", 1)]);

    // Part A contributes both joints.
    contribute_global_joints(
        &mut master,
        &["root".to_string(), "spine".to_string()],
        &[None, Some(0)],
        &[
            identity_pose(),
            JointBindPose { translation: s3([0.0, 1.5, 0.0]), ..identity_pose() },
        ],
    )
    .expect("part A's first contribution must succeed");

    // Part B re-contributes "spine" with a matching parent and a
    // bind pose that differs only by floating-point noise well
    // within tolerance.
    contribute_global_joints(
        &mut master,
        &["root".to_string(), "spine".to_string()],
        &[None, Some(0)],
        &[
            identity_pose(),
            JointBindPose { translation: s3([0.0, 1.5000005, 0.0]), ..identity_pose() },
        ],
    )
    .expect("part B's matching re-contribution must succeed");

    let spine = master.global_joints[1].expect("spine must be contributed");
    assert_eq!(spine.parent, Some(0));
    assert!((f(spine.bind_pose.translation[1]) - 1.5).abs() < 1e-3);
    assert_eq!(spine.bind_pose.translation[1], s(1.5));
}

/// Two parts contributing the same joint name but disagreeing about
/// its parent must fail with a specific, readable error naming the
/// conflicting joint.
#[test]
fn contribute_global_joints_parent_mismatch_is_a_hard_error() {
    let mut master = test_master(&[("root", 0), ("alt_root", 1), ("spine", 2)]);

    contribute_global_joints(
        &mut master,
        &["root".to_string(), "spine".to_string()],
        &[None, Some(0)],
        &[identity_pose(), identity_pose()],
    )
    .expect("part A's contribution must succeed");

    let err = contribute_global_joints(
        &mut master,
        &["alt_root".to_string(), "spine".to_string()],
        &[None, Some(0)],
        &[identity_pose(), identity_pose()],
    )
    .expect_err("part B claiming a different parent for 'spine' must fail");

    match &err {
        SkeletonError::ParentMismatch { bone_name, .. } => {
            assert_eq!(bone_name, "spine");
        }
        other => panic!("expected ParentMismatch, got {other:?}"),
    }
    let message = err_to_string(&err);
    assert!(message.contains("spine"), "error should name the conflicting joint: {message}");
    assert_eq!(
        message,
        "bone 'spine' was already contributed by an earlier part with parent root, but this part \
         claims its parent is alt_root — two parts disagree about this shared skeleton's structure"
    );
}

/// Two parts contributing the same joint name with a matching parent
/// but a bind pose that disagrees by more than the allowed tolerance
/// must fail with a specific, readable error naming the conflicting
/// joint and both values.
#[test]
fn contribute_global_joints_bind_pose_mismatch_is_a_hard_error() {
    let mut master = test_master(&[("root", 0)]);

    contribute_global_joints(&mut master, &["root".to_string()], &[None], &[identity_pose()])
        .expect("part A's contribution must succeed");

    let err = contribute_global_joints(
        &mut master,
        &["root".to_string()],
        &[None],
        &[JointBindPose {
            translation: s3([0.0, 10.0, 0.0]), // far beyond tolerance
            ..identity_pose()
        }],
    )
    .expect_err("part B claiming a wildly different bind pose for 'root' must fail");

    assert_eq!(
        err_to_string(&err),
        "bone 'root' was already contributed by an earlier part with bind pose \
         translation=[0.0, 0.0, 0.0] rotation=[0.0, 0.0, 0.0, 1.0] scale=[1.0, 1.0, 1.0], but this \
         part claims translation=[0.0, 10.0, 0.0] rotation=[0.0, 0.0, 0.0, 1.0] \
         scale=[1.0, 1.0, 1.0] — differs by more than the allowed floating-point tolerance"
    );
    match err {
        SkeletonError::BindPoseMismatch { bone_name, .. } => {
            assert_eq!(bone_name, "root");
        }
        other => panic!("expected BindPoseMismatch, got {other:?}"),
    }
}

/// A bone named in the master skeleton that no loaded part ever
/// contributes must be detectable after the fact.
#[test]
fn uncontributed_bone_remains_none() {
    let mut master = test_master(&[("root", 0), ("never_contributed", 1)]);

    contribute_global_joints(&mut master, &["root".to_string()], &[None], &[identity_pose()])
        .expect("contributing 'root' must succeed");

    assert!(master.global_joints[0].is_some());
    assert!(
        master.global_joints[1].is_none(),
        "'never_contributed' was never contributed by any part and must remain None"
    );
}

#[test]
fn contributing_the_same_part_again_changes_nothing() {
    let mut master = test_master(&[("root", 1), ("spine", 0)]);
    let names = ["root".to_string(), "spine".to_string()];
    let poses = [
        identity_pose(),
        JointBindPose { translation: s3([0.5, -1.25, 3.0]), ..identity_pose() },
    ];
    contribute_global_joints(&mut master, &names, &[None, Some(0)], &poses).expect("first");
    let recorded = master.global_joints.clone();
    contribute_global_joints(&mut master, &names, &[None, Some(0)], &poses).expect("second");
    assert_eq!(master.global_joints, recorded);
    assert_eq!(recorded[0].unwrap().parent, Some(1));
}

#[test]
fn joints_before_a_conflict_are_recorded() {
    let mut master = test_master(&[("root", 0), ("arm", 1), ("leg", 2)]);
    contribute_global_joints(&mut master, &["root".to_string()], &[None], &[identity_pose()])
        .expect("first part");
    let err = contribute_global_joints(
        &mut master,
        &["arm".to_string(), "root".to_string(), "leg".to_string()],
        &[Some(1), Some(0), None],
        &[identity_pose(), identity_pose(), identity_pose()],
    )
    .expect_err("root has a parent now");
    assert!(matches!(
        err,
        SkeletonError::ParentMismatch { existing_parent: None, new_parent: Some(ref p), .. } if p == "arm"
    ));
    assert!(master.global_joints[1].is_some());
    assert!(master.global_joints[2].is_none());
}

#[test]
fn unknown_names_are_rejected_before_anything_is_recorded() {
    let mut master = test_master(&[("root", 0)]);
    let err = contribute_global_joints(
        &mut master,
        &["root".to_string(), "tail".to_string()],
        &[None, Some(0)],
        &[identity_pose(), identity_pose()],
    )
    .expect_err("tail is unknown");
    assert_eq!(
        err_to_string(&err),
        "bone 'tail' (local joint index 1) does not exist in master_skeleton.json; \
         part is incompatible with the master rig"
    );
    assert!(master.global_joints[0].is_none());

    let err = contribute_global_joints(
        &mut master,
        &["root".to_string()],
        &[Some(7)],
        &[identity_pose()],
    )
    .expect_err("there is no joint 7");
    match err {
        SkeletonError::UnknownBone { bone_name, local_joint_index } => {
            assert_eq!(
                bone_name,
                "<internal error: parent local joint index 7 is out of range for this part's 1 joints>"
            );
            assert_eq!(local_joint_index, 0);
        }
        other => panic!("expected UnknownBone, got {other:?}"),
    }
}

#[test]
fn bone_indices_are_led_to_the_master_skeleton() {
    let master = test_master(&[("root", 4), ("spine", 9), ("far", 70000)]);
    let names = ["spine".to_string(), "root".to_string(), "far".to_string()];
    let mut vertices = vec![
        vertex([0, 1, 2, 77], [0.5, 0.25, 0.25, 0.0]),
        vertex([1, 0, 99, 98], [1.0, -0.0, 0.0, 0.0]),
    ];
    resolve_bone_indices(&mut vertices, &names, &master).expect("every name is known");
    // A weight of zero leaves the slot alone; an index past u16::MAX is capped.
    assert_eq!(vertices[0].bone_indices, [9, 4, 65535, 77]);
    assert_eq!(vertices[1].bone_indices, [4, 0, 99, 98]);
    assert_eq!(vertices[0].position, s3([1.0, 2.0, 3.0]));
}

#[test]
fn a_stray_joint_index_is_reported_where_it_stands() {
    let master = test_master(&[("root", 4)]);
    let names = ["root".to_string()];
    let mut vertices = vec![
        vertex([0, 0, 0, 0], [1.0, 0.0, 0.0, 0.0]),
        vertex([0, 3, 0, 0], [0.5, 0.25, 0.25, 0.0]),
        vertex([0, 0, 0, 0], [1.0, 0.0, 0.0, 0.0]),
    ];
    let err = resolve_bone_indices(&mut vertices, &names, &master).expect_err("joint 3");
    assert!(matches!(
        err,
        SkeletonError::LocalJointIndexOutOfRange {
            vertex_index: 1,
            local_index: 3,
            local_joint_count: 1
        }
    ));
    assert_eq!(
        err_to_string(&err),
        "vertex[1] references local joint index 3, but the part only defines 1 joints"
    );
    assert_eq!(vertices[0].bone_indices, [4, 0, 0, 0]);
    assert_eq!(vertices[1].bone_indices, [4, 3, 0, 0]);
    assert_eq!(vertices[2].bone_indices, [0, 0, 0, 0]);
}

#[test]
fn an_unknown_bone_leaves_the_vertices_alone() {
    let master = test_master(&[("root", 4)]);
    let mut vertices = vec![vertex([0, 0, 0, 0], [1.0, 0.0, 0.0, 0.0])];
    let err = resolve_bone_indices(&mut vertices, &["hip".to_string()], &master).expect_err("hip");
    assert!(matches!(err, SkeletonError::UnknownBone { local_joint_index: 0, .. }));
    assert_eq!(vertices[0].bone_indices, [0, 0, 0, 0]);
}

#[test]
fn a_master_skeleton_is_read_from_json() {
    let bytes = br#"{"root": 0, "spine": 1, "neck_01": 2}"#;
    let master = parse_master_skeleton_bytes(bytes, "rig.json").expect("valid JSON");
    assert_eq!(master.name_to_global_index.len(), 3);
    assert_eq!(master.global_joints.len(), 3);
    assert!(master.global_joints.iter().all(|j| j.is_none()));
    assert_eq!(master.find(&"spine".to_string()), Some(1));
    assert_eq!(master.find(&"neck_01".to_string()), Some(2));
    assert_eq!(master.find(&"tail".to_string()), None);
    assert_eq!(bone_name_for_global_index(&master, 2), "neck_01");
    assert_eq!(bone_name_for_global_index(&master, 5), "<unnamed bone #5>");
}

#[test]
fn data_that_is_no_flat_object_is_a_parse_error() {
    for bytes in [&b"{\"root\": -1}"[..], b"[]", b"{\"bones\":{\"root\":0}}", b""] {
        let err = parse_master_skeleton_bytes(bytes, "rig.json").expect_err("not a skeleton");
        assert!(matches!(err, SkeletonError::Parse { ref path, .. } if path == "rig.json"));
        let message = err_to_string(&err);
        assert!(message.starts_with("failed to parse 'rig.json' as JSON: "), "{message}");
        let own = serde_json::from_slice::<HashMap<String, u32>>(bytes).expect_err("the same");
        assert_eq!(message, format!("failed to parse 'rig.json' as JSON: {own}"));
        match err {
            SkeletonError::Parse { source: Some(source), reason, .. } => {
                assert_eq!(source.to_string(), reason);
            }
            other => panic!("expected Parse, got {other:?}"),
        }
    }
}

#[test]
fn a_bone_without_a_place_is_an_error() {
    let mut master =
        parse_master_skeleton_bytes(br#"{"root":5}"#, "rig.json").expect("valid JSON");
    let err = contribute_global_joints(
        &mut master,
        &["root".to_string()],
        &[None],
        &[identity_pose()],
    )
    .expect_err("there is one place, and index 5 is not it");
    assert!(matches!(
        err,
        SkeletonError::UnknownBone { ref bone_name, local_joint_index: 0 } if bone_name == "root"
    ));
    assert!(master.global_joints[0].is_none());

    // What comes before it has been recorded.
    let mut master = test_master(&[("root", 0), ("tail", 9)]);
    let err = contribute_global_joints(
        &mut master,
        &["root".to_string(), "tail".to_string()],
        &[None, Some(0)],
        &[identity_pose(), identity_pose()],
    )
    .expect_err("no place for the tail");
    assert!(matches!(err, SkeletonError::UnknownBone { local_joint_index: 1, .. }));
    assert!(master.global_joints[0].is_some());
    assert!(master.global_joints[1].is_none());
}

#[test]
fn digits_are_counted_in_numbers_only() {
    assert!(has_countable_numbers(br#"{"a1\\\"2":3, "b": 12345678901234567890}"#));
    let err = SkeletonError::Parse {
        path: "rig.json".to_string(),
        source: None,
        reason: "a number has too many digits".to_string(),
    };
    assert_eq!(
        err_to_string(&err),
        "failed to parse 'rig.json' as JSON: a number has too many digits"
    );
}

#[test]
fn an_unreadable_file_is_described() {
    let err = SkeletonError::Io { path: "a/b.json".to_string(), reason: "gone".to_string() };
    assert_eq!(err_to_string(&err), "failed to read 'a/b.json': gone");
}

#[test]
fn poses_match_within_a_ten_thousandth() {
    let a = identity_pose();
    let mut b = identity_pose();
    b.rotation[3] = s(1.00009);
    assert!(bind_poses_match_within_tolerance(&a, &b));
    b.rotation[3] = s(1.00011);
    assert!(!bind_poses_match_within_tolerance(&a, &b));
    b = identity_pose();
    b.scale[2] = s(f32::NAN);
    assert!(!bind_poses_match_within_tolerance(&b, &b));
}
