use anthroforge_core::obj_loader::{
    build_loaded_obj_mesh, compute_smooth_normals, finish_loading, load_obj_bytes,
    try_load_obj_bytes, ObjLoadError, ObjModel, OBJ_BIND_BONE_NAME,
};
use anthroforge_core::obj_references::bound_references;
use anthroforge_core::single::Single;
use anthroforge_core::vertex::SkinnedVertex;

fn s(x: f32) -> Single {
    Single { bits: x.to_bits() }
}

fn s3(v: [f32; 3]) -> [Single; 3] {
    v.map(s)
}

fn f(x: Single) -> f32 {
    f32::from_bits(x.bits)
}

fn singles(v: &[f32]) -> Vec<Single> {
    v.iter().map(|&x| s(x)).collect()
}

fn model(positions: &[f32], normals: &[f32], texcoords: &[f32], indices: &[u32]) -> ObjModel {
    ObjModel {
        positions: singles(positions),
        normals: singles(normals),
        texcoords: singles(texcoords),
        indices: indices.to_vec(),
    }
}

const CORNERS: [f32; 9] = [0.0, 0.0, 0.0, 1.0, 0.0, 0.0, 0.0, 1.0, 0.0];

#[test]
fn a_triangle_is_loaded_from_bytes() {
    let obj = b"o thing\nv 0 0 0\nv 1 0 0\nv 0 1 0\nf 1 2 3\n";
    let mesh = load_obj_bytes(obj).expect("a triangle");
    assert_eq!(mesh.indices, vec![0, 1, 2]);
    assert_eq!(mesh.vertices.len(), 3);
    for (i, v) in mesh.vertices.iter().enumerate() {
        assert_eq!(v.position, s3([CORNERS[3 * i], CORNERS[3 * i + 1], CORNERS[3 * i + 2]]));
        assert_eq!(v.normal, s3([0.0, 0.0, 1.0]));
        assert_eq!(v.uv, [s(0.0), s(0.0)]);
        assert_eq!(v.bone_indices, [0, 0, 0, 0]);
        assert_eq!(v.bone_weights, [s(1.0), s(0.0), s(0.0), s(0.0)]);
    }
    assert_eq!(OBJ_BIND_BONE_NAME, "root");
}

#[test]
fn normals_and_texture_coordinates_come_along() {
    let obj = b"v 0 0 0\nv 1 0 0\nv 0 1 0\nvt 0.25 0.5\nvt 1 0\nvt 0 1\nvn 0 1 0\nf 1/1/1 2/2/1 3/3/1\n";
    let mesh = load_obj_bytes(obj).expect("a triangle");
    assert_eq!(mesh.vertices[0].uv, [s(0.25), s(0.5)]);
    assert_eq!(mesh.vertices[2].uv, [s(0.0), s(1.0)]);
    for v in &mesh.vertices {
        assert_eq!(v.normal, s3([0.0, 1.0, 0.0]));
    }
}

#[test]
fn polygons_are_triangulated_and_references_may_count_backwards() {
    let obj = b"v 0 0 0\nv 1 0 0\nv 1 1 0\nv 0 1 0\nf -4 -3 -2 -1\n";
    let mesh = load_obj_bytes(obj).expect("a square");
    assert_eq!(mesh.vertices.len(), 4);
    assert_eq!(mesh.indices.len(), 6);
}

#[test]
fn a_missing_material_file_does_not_matter() {
    let obj = b"mtllib nowhere.mtl\nv 0 0 0\nv 1 0 0\nv 0 1 0\nusemtl red\nf 1 2 3\n";
    assert_eq!(load_obj_bytes(obj).expect("a triangle").vertices.len(), 3);
}

#[test]
fn models_follow_one_another() {
    let models = vec![
        model(&CORNERS, &[], &[], &[0, 1, 2]),
        model(&[], &[], &[], &[]),
        model(&CORNERS, &[], &[], &[2, 1, 0]),
    ];
    let mesh = build_loaded_obj_mesh(&models, "two").expect("two triangles");
    assert_eq!(mesh.vertices.len(), 6);
    assert_eq!(mesh.indices, vec![0, 1, 2, 5, 4, 3]);
    assert_eq!(mesh.vertices[0].normal, s3([0.0, 0.0, 1.0]));
    assert_eq!(f(mesh.vertices[3].normal[2]), -1.0);
}

#[test]
fn data_that_is_not_obj_is_reported() {
    let err = load_obj_bytes(b"v 1 2 x\n").expect_err("not a number");
    assert!(matches!(err, ObjLoadError::Parse { .. }));
    let expected = format!("failed to parse '<embedded bytes>': {}", tobj::LoadError::PositionParseError);
    assert_eq!(err.message(), expected);

    let err = finish_loading(Err(tobj::LoadError::FaceParseError)).expect_err("failed");
    let expected = format!("failed to parse '<embedded bytes>': {}", tobj::LoadError::FaceParseError);
    assert_eq!(err.message(), expected);
}

#[test]
fn each_fault_of_a_model_is_reported() {
    let cases: [(Vec<ObjModel>, &str); 8] = [
        (vec![], "'x' contains no models"),
        (
            vec![model(&[], &[], &[], &[])],
            "'x' contains models but they yielded zero usable vertices",
        ),
        (
            vec![model(&[], &[], &[], &[]), model(&[1.0; 4], &[], &[], &[])],
            "'x' model[1] attribute 'position' has 4 floats, which is not a whole number of vertices",
        ),
        (
            vec![model(&CORNERS, &[1.0; 8], &[], &[])],
            "'x' model[0] attribute 'normal' has 8 floats, which is not a whole number of vertices",
        ),
        (
            vec![model(&CORNERS, &[1.0; 6], &[], &[])],
            "'x' model[0] attribute 'normal' has 2 elements, expected 3",
        ),
        (
            vec![model(&CORNERS, &[], &[1.0; 5], &[])],
            "'x' model[0] attribute 'texcoord' has 5 floats, which is not a whole number of vertices",
        ),
        (
            vec![model(&CORNERS, &[], &[1.0; 8], &[])],
            "'x' model[0] attribute 'texcoord' has 4 elements, expected 3",
        ),
        (
            vec![model(&CORNERS, &[], &[], &[0, 1, 3, 7])],
            "'x' model[0] face index 3 is out of range for its 3-vertex model",
        ),
    ];
    for (models, text) in cases {
        let err = build_loaded_obj_mesh(&models, "x").expect_err(text);
        assert_eq!(err.message(), text);
    }
}

#[test]
fn smooth_normals_are_weighted_by_area_and_normalised() {
    let v = |p: [f32; 3]| SkinnedVertex {
        position: s3(p),
        normal: s3([9.0, 9.0, 9.0]),
        uv: [s(0.0); 2],
        bone_indices: [0; 4],
        bone_weights: [s(0.0); 4],
    };
    // A triangle in the XY plane, one of three times its area in the XZ plane, and a
    // vertex that belongs to neither.
    let mut vertices = vec![
        v([0.0, 0.0, 0.0]),
        v([1.0, 0.0, 0.0]),
        v([0.0, 1.0, 0.0]),
        v([0.0, 0.0, 3.0]),
        v([5.0, 5.0, 5.0]),
    ];
    compute_smooth_normals(&mut vertices, &[0, 1, 2, 0, 3, 1, 0, 1, 9, 4, 4]);
    let length = (1.0f32 + 9.0).sqrt();
    assert_eq!(vertices[0].normal, s3([0.0 / length, 3.0 / length, 1.0 / length]));
    assert_eq!(vertices[2].normal, s3([0.0, 0.0, 1.0]));
    assert_eq!(vertices[3].normal.map(f), [0.0, 1.0, 0.0]);
    assert_eq!(vertices[4].normal, s3([0.0, 1.0, 0.0]));
    for v in &vertices {
        let n = v.normal.map(|x| f(x) as f64);
        assert!((n[0] * n[0] + n[1] * n[1] + n[2] * n[2] - 1.0).abs() <= 1.0 / 524_288.0);
    }
}

#[test]
fn data_of_any_kind_can_be_tried() {
    let fine = b"v 0 0 0\nv 1 0 0\nv 0 1 0\nf 1 2 3\n";
    assert!(matches!(try_load_obj_bytes(fine), Some(Ok(_))));
    assert!(matches!(try_load_obj_bytes(b""), Some(Err(ObjLoadError::EmptyGeometry { .. }))));
    assert!(matches!(try_load_obj_bytes(b"f 1 2\xff\n"), Some(Err(ObjLoadError::Parse { .. }))));
    // A texture reference that leads before the first texture coordinate.
    let backwards = b"v 0 0 0\nv 1 0 0\nv 0 1 0\nvt 0 0\nf 1/-9 2/-9 3/-9\n";
    assert!(matches!(try_load_obj_bytes(backwards), Some(Err(ObjLoadError::Parse { .. }))));
}

#[test]
fn references_that_cannot_be_resolved_are_parse_errors() {
    let texcoord = b"v 0 0 0\nv 1 0 0\nv 0 1 0\nvt 0 0\nf 1/-9 2/-9 3/-9\n";
    let err = load_obj_bytes(texcoord).expect_err("no such texture coordinate");
    assert!(matches!(
        err,
        ObjLoadError::Parse { source: tobj::LoadError::FaceTexCoordOutOfBounds, .. }
    ));
    assert_eq!(
        err.message(),
        "failed to parse '<embedded bytes>': face texcoord index out of bounds"
    );

    let normal = b"v 0 0 0\nv 1 0 0\nv 0 1 0\nvn 0 0 1\nf 1//-3 2//1 3//1\n";
    let err = load_obj_bytes(normal).expect_err("no such normal");
    assert!(matches!(
        err,
        ObjLoadError::Parse { source: tobj::LoadError::FaceNormalOutOfBounds, .. }
    ));
    assert_eq!(
        err.message(),
        "failed to parse '<embedded bytes>': face normal index out of bounds"
    );

    let huge = b"v 0 0 0\nv 1 0 0\nv 0 1 0\nvt 0 0\nvn 0 0 1\nf 1//9223372036854775807 2//1 3//1\n";
    assert!(matches!(
        load_obj_bytes(huge),
        Err(ObjLoadError::Parse { source: tobj::LoadError::FaceNormalOutOfBounds, .. })
    ));
    // What no `isize` can hold is no number, and the face is none.
    let huger = b"v 0 0 0\nv 1 0 0\nv 0 1 0\nvt 0 0\nf 1/-9223372036854775809 2/1 3/1\n";
    assert!(matches!(
        load_obj_bytes(huger),
        Err(ObjLoadError::Parse { source: tobj::LoadError::FaceParseError, .. })
    ));
    // One beyond the first counts as no reference at all.
    let none = b"v 0 0 0\nv 1 0 0\nv 0 1 0\nvt 0 0\nf 1/-2 2/-2 3/-2\n";
    assert!(load_obj_bytes(none).is_ok());
}

#[test]
fn points_and_lines_are_ignored_whatever_they_refer_to() {
    let obj = b"v 0 0 0\nv 1 0 0\nv 0 1 0\nvt 0 0\nf 1/-3\nl 1/-3 2/-3\nf 1/1 2/1 3/1\n";
    assert_eq!(load_obj_bytes(obj).expect("a triangle").indices, vec![0, 1, 2]);
}

#[test]
fn every_kind_of_white_space_parts_words() {
    let start = "v 0 0 0\nv 1 0 0\nv 0 1 0\nvt 0 0\n";
    for space in ["\u{85}", "\u{a0}", "\u{1680}", "\u{2003}", "\u{2028}", "\u{202f}", "\u{205f}", "\u{3000}", "\u{b}"] {
        let bad = format!("{start}f{space}1/-9{space}2/-9{space}3/-9\n");
        assert_ne!(bound_references(bad.as_bytes()), bad.as_bytes(), "{space:?}");
        assert!(matches!(
            load_obj_bytes(bad.as_bytes()),
            Err(ObjLoadError::Parse { source: tobj::LoadError::FaceTexCoordOutOfBounds, .. })
        ));
        let good = format!("{start}f{space}1/-1{space}2/-1{space}3/-1\n");
        assert_eq!(load_obj_bytes(good.as_bytes()).expect("a triangle").vertices.len(), 3);
    }
    // A word that merely starts like a face is none.
    let other = format!("{start}f\u{e9} 1/-9 2/-9 3/-9\nf 1/1 2/1 3/1\n");
    assert_eq!(load_obj_bytes(other.as_bytes()).expect("a triangle").vertices.len(), 3);
}

#[test]
fn what_is_not_a_number_has_one_bit_pattern() {
    let obj = b"v inf 0 0 inf\nv -nan 0 0\nv 0 1 0\nf 1 2 3\n";
    let mesh = load_obj_bytes(obj).expect("a triangle");
    let pattern = Single { bits: 0x7fc0_0000 };
    assert_eq!(mesh.vertices[0].position, [pattern, s(0.0), s(0.0)]);
    assert_eq!(mesh.vertices[1].position, [pattern, s(0.0), s(0.0)]);

    let odd = ObjModel {
        positions: vec![Single { bits: 0xffff_ffff }, s(-0.0), s(f32::INFINITY)],
        normals: vec![s(0.0), s(1.0), Single { bits: 0x7f80_0001 }],
        texcoords: vec![Single { bits: 0xff80_0001 }, s(0.5)],
        indices: vec![],
    };
    let mesh = finish_loading(Ok(vec![odd])).expect("one vertex");
    assert_eq!(mesh.vertices[0].position, [pattern, s(-0.0), s(f32::INFINITY)]);
    assert_eq!(mesh.vertices[0].normal, [s(0.0), s(1.0), pattern]);
    assert_eq!(mesh.vertices[0].uv, [pattern, s(0.5)]);
}

#[test]
fn references_do_not_matter_where_there_is_nothing_to_refer_to() {
    let obj = b"v 0 0 0\nv 1 0 0\nv 0 1 0\nf 1/-9 2/-9 3/-9\n";
    assert_eq!(bound_references(obj), obj);
    assert!(matches!(try_load_obj_bytes(obj), Some(Ok(_))));
}

#[test]
fn references_do_not_matter_to_what_a_later_model_declares() {
    for start in ["o", "g", " o\u{a0}", "g\t"] {
        let obj = format!(
            "v 0 0 0\nv 1 0 0\nv 0 1 0\nf 1/-9/-9 2/-8/-8 3/-9/-9\n{start} next\nvt 0 0\nvn 0 0 1\nf 1/1/1 2/1/1 3/1/1\n"
        );
        assert_eq!(bound_references(obj.as_bytes()), obj.as_bytes());
        let mesh = load_obj_bytes(obj.as_bytes()).expect("two triangles");
        assert_eq!(mesh.indices, vec![0, 1, 2, 3, 4, 5]);
    }
    // A change of material does not end a model, and neither does a longer word.
    for other in ["usemtl red", "s off", "object x"] {
        let obj = format!(
            "mtllib x.mtl\nv 0 0 0\nv 1 0 0\nv 0 1 0\nf 1/-9 2/-9 3/-9\n{other}\nvt 0 0\nf 1 2 3\n"
        );
        assert!(matches!(
            load_obj_bytes(obj.as_bytes()),
            Err(ObjLoadError::Parse { source: tobj::LoadError::FaceTexCoordOutOfBounds, .. })
        ));
    }
    // What an earlier model declared is still there.
    let later = b"v 0 0 0\nv 1 0 0\nv 0 1 0\nvt 0 0\nf 1/1 2/1 3/1\no b\nf 1/1 2/-3 3/1\n";
    assert!(matches!(
        load_obj_bytes(later),
        Err(ObjLoadError::Parse { source: tobj::LoadError::FaceTexCoordOutOfBounds, .. })
    ));
}

#[test]
fn what_comes_first_is_reported_before_an_unresolvable_reference() {
    let start = "v 0 0 0\nv 1 0 0\nv 0 1 0\nvt 0 0\n";
    let bad = "f 1/-9 2/-9 3/-9\n";
    let earlier = format!("v 0 0 x\n{start}{bad}");
    assert!(matches!(
        load_obj_bytes(earlier.as_bytes()),
        Err(ObjLoadError::Parse { source: tobj::LoadError::PositionParseError, .. })
    ));
    // Every line of a model is read before its faces are made.
    let later = format!("{start}{bad}vn 1 2\n");
    assert!(matches!(
        load_obj_bytes(later.as_bytes()),
        Err(ObjLoadError::Parse { source: tobj::LoadError::NormalParseError, .. })
    ));
    let next_model = format!("{start}{bad}o next\nvn 1 2\n");
    assert!(matches!(
        load_obj_bytes(next_model.as_bytes()),
        Err(ObjLoadError::Parse { source: tobj::LoadError::FaceTexCoordOutOfBounds, .. })
    ));
    // The faces are made in turn, each corner by its position first.
    let position = format!("{start}f 1/1 2/1 9/1\n{bad}");
    assert!(matches!(
        load_obj_bytes(position.as_bytes()),
        Err(ObjLoadError::Parse { source: tobj::LoadError::FaceVertexOutOfBounds, .. })
    ));
    let same_corner = format!("{start}f 9/-9 2/1 3/1\n");
    assert!(matches!(
        load_obj_bytes(same_corner.as_bytes()),
        Err(ObjLoadError::Parse { source: tobj::LoadError::FaceVertexOutOfBounds, .. })
    ));
    let mut not_text = start.as_bytes().to_vec();
    not_text.extend_from_slice(b"f 1/-9 2/-9 3/\xff\n");
    assert!(matches!(
        load_obj_bytes(&not_text),
        Err(ObjLoadError::Parse { source: tobj::LoadError::ReadError, .. })
    ));
}

#[test]
fn far_references_take_the_place_of_unresolvable_ones_only() {
    let far = (usize::MAX / 3).to_string();
    let obj = "# a\r\nv 0 0 0\nvt 0 0\nvn 0 0 1\n f\t1/-9/1  -1/1/-7 1//-1\nusemtl \u{3000}x\nf 1/2 1/3 1/-2\n";
    let expected = format!(
        "# a\r\nv 0 0 0\nvt 0 0\nvn 0 0 1\n f 1/{far}/1  -1/1/{far} 1//-1\nusemtl \u{3000}x\nf 1/2 1/3 1/-2\n"
    );
    assert_eq!(bound_references(obj.as_bytes()), expected.as_bytes());
    assert_eq!(bound_references(expected.as_bytes()), expected.as_bytes());
    assert_eq!(bound_references(b""), b"");
}
