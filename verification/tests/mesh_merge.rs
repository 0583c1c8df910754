use anthroforge_core::mesh_merge::{merge_parts, MeshMergeError};
use anthroforge_core::single::Single;
use anthroforge_core::vertex::SkinnedVertex;

fn s(x: f32) -> Single {
    Single { bits: x.to_bits() }
}

fn make_vertex(x: f32) -> SkinnedVertex {
    SkinnedVertex {
        position: [s(x), s(0.0), s(0.0)],
        normal: [s(0.0), s(1.0), s(0.0)],
        uv: [s(0.0), s(0.0)],
        bone_indices: [0, 0, 0, 0],
        bone_weights: [s(1.0), s(0.0), s(0.0), s(0.0)],
    }
}

#[test]
fn merging_two_triangles_offsets_second_by_first_vertex_count() {
    let part_a_vertices = [make_vertex(0.0), make_vertex(1.0), make_vertex(2.0)];
    let part_a_indices: [u32; 3] = [0, 1, 2];

    let part_b_vertices = [make_vertex(3.0), make_vertex(4.0), make_vertex(5.0)];
    let part_b_indices: [u32; 3] = [0, 1, 2];

    let parts: [(&[SkinnedVertex], &[u32]); 2] = [
        (&part_a_vertices, &part_a_indices),
        (&part_b_vertices, &part_b_indices),
    ];

    let (vertices, indices) = merge_parts(&parts).expect("merge should succeed");

    assert_eq!(vertices.len(), 6);
    assert_eq!(indices.len(), 6);
    assert_eq!(indices, vec![0, 1, 2, 3, 4, 5]);
    // Sanity-check the vertices themselves were concatenated in order.
    assert_eq!(vertices[0].position[0], s(0.0));
    assert_eq!(vertices[3].position[0], s(3.0));
}

#[test]
fn merging_single_part_is_identity() {
    let vertices = [make_vertex(0.0), make_vertex(1.0), make_vertex(2.0)];
    let indices: [u32; 3] = [0, 1, 2];

    let parts: [(&[SkinnedVertex], &[u32]); 1] = [(&vertices, &indices)];

    let (merged_vertices, merged_indices) = merge_parts(&parts).expect("merge should succeed");

    assert_eq!(merged_vertices.len(), vertices.len());
    assert_eq!(merged_indices, indices.to_vec());
    for (merged, original) in merged_vertices.iter().zip(vertices.iter()) {
        assert_eq!(merged.position, original.position);
    }
}

#[test]
fn empty_parts_slice_is_not_an_error() {
    let parts: [(&[SkinnedVertex], &[u32]); 0] = [];
    let (vertices, indices) = merge_parts(&parts).expect("empty input must be Ok");
    assert!(vertices.is_empty());
    assert!(indices.is_empty());
}

#[test]
fn non_multiple_of_three_index_count_is_a_typed_error() {
    let vertices = [make_vertex(0.0), make_vertex(1.0), make_vertex(2.0), make_vertex(3.0)];
    // 4 indices: not a multiple of 3.
    let bad_indices: [u32; 4] = [0, 1, 2, 3];

    let parts: [(&[SkinnedVertex], &[u32]); 1] = [(&vertices, &bad_indices)];

    let result = merge_parts(&parts);
    match result {
        Ok(_) => panic!("expected IndexCountNotMultipleOfThree, got Ok"),
        Err(MeshMergeError::IndexCountNotMultipleOfThree { part_index, index_count }) => {
            assert_eq!(part_index, 0);
            assert_eq!(index_count, 4);
        }
        Err(other) => panic!("expected IndexCountNotMultipleOfThree, got {other:?}"),
    }
}

#[test]
fn three_parts_produce_correctly_cumulative_offsets() {
    let part_a_vertices = [make_vertex(0.0), make_vertex(1.0), make_vertex(2.0)];
    let part_a_indices: [u32; 3] = [0, 1, 2];

    // Part B has 4 vertices this time, to make sure the offset isn't
    // just coincidentally right due to every part being the same size.
    let part_b_vertices = [
        make_vertex(10.0),
        make_vertex(11.0),
        make_vertex(12.0),
        make_vertex(13.0),
    ];
    let part_b_indices: [u32; 3] = [0, 1, 2];

    let part_c_vertices = [make_vertex(20.0), make_vertex(21.0), make_vertex(22.0)];
    let part_c_indices: [u32; 3] = [2, 1, 0];

    let parts: [(&[SkinnedVertex], &[u32]); 3] = [
        (&part_a_vertices, &part_a_indices),
        (&part_b_vertices, &part_b_indices),
        (&part_c_vertices, &part_c_indices),
    ];

    let (vertices, indices) = merge_parts(&parts).expect("merge should succeed");

    assert_eq!(vertices.len(), 3 + 4 + 3);
    // Part A: offset 0.
    assert_eq!(&indices[0..3], &[0, 1, 2]);
    // Part B: offset 3 (part A's vertex count).
    assert_eq!(&indices[3..6], &[3, 4, 5]);
    // Part C: offset 3 + 4 = 7 (sum of part A's and part B's vertex counts).
    assert_eq!(&indices[6..9], &[9, 8, 7]);
}

#[test]
fn an_index_that_cannot_be_counted_on_is_an_overflow_error() {
    let first = [make_vertex(0.0)];
    let second = [make_vertex(1.0)];
    let none: [u32; 0] = [];
    let huge: [u32; 3] = [0, u32::MAX, 0];
    let parts: [(&[SkinnedVertex], &[u32]); 2] = [(&first, &none), (&second, &huge)];
    let err = merge_parts(&parts).expect_err("u32::MAX + 1 does not fit");
    assert_eq!(err, MeshMergeError::VertexOffsetOverflow { part_index: 1 });
    assert_eq!(
        err.message(),
        "cumulative vertex offset overflowed u32::MAX before part[1]; \
         too many/too-large parts to merge into a single u32-indexed buffer"
    );
}

#[test]
fn the_first_faulty_part_is_reported() {
    let one = [make_vertex(0.0)];
    let fine: [u32; 3] = [0, 0, 0];
    let short: [u32; 2] = [0, 0];
    let single: [u32; 1] = [0];
    let parts: [(&[SkinnedVertex], &[u32]); 3] = [(&one, &fine), (&one, &short), (&one, &single)];
    let err = merge_parts(&parts).expect_err("two indices are no triangle");
    assert_eq!(err, MeshMergeError::IndexCountNotMultipleOfThree { part_index: 1, index_count: 2 });
    assert_eq!(
        err.message(),
        "part[1] has 2 indices, which is not a multiple of 3 \
         (this crate's loaders only ever emit triangle lists)"
    );
}

#[test]
fn merged_indices_lead_to_the_same_vertices() {
    let a = [make_vertex(1.0), make_vertex(2.0)];
    let b = [make_vertex(3.0), make_vertex(4.0), make_vertex(5.0)];
    let ia: [u32; 3] = [1, 0, 1];
    let ib: [u32; 3] = [2, 2, 1];
    let parts: [(&[SkinnedVertex], &[u32]); 2] = [(&a, &ia), (&b, &ib)];
    let (vertices, indices) = merge_parts(&parts).expect("merge should succeed");
    for j in 0..3 {
        assert_eq!(vertices[indices[j] as usize], a[ia[j] as usize]);
        assert_eq!(vertices[indices[3 + j] as usize], b[ib[j] as usize]);
    }
    assert!(indices.iter().all(|&i| (i as usize) < vertices.len()));
}

#[test]
fn merging_in_groups_is_merging_at_once() {
    let a_vertices = [make_vertex(0.0), make_vertex(1.0)];
    let b_vertices = [make_vertex(2.0)];
    let c_vertices = [make_vertex(3.0), make_vertex(4.0), make_vertex(5.0)];
    let a_indices: [u32; 3] = [0, 1, 0];
    let b_indices: [u32; 3] = [0, 0, 0];
    let c_indices: [u32; 3] = [2, 1, 0];

    let (first_vertices, first_indices) =
        merge_parts(&[(&a_vertices[..], &a_indices[..]), (&b_vertices[..], &b_indices[..])])
            .expect("two parts");
    let (second_vertices, second_indices) =
        merge_parts(&[(&c_vertices[..], &c_indices[..])]).expect("one part");
    let grouped = merge_parts(&[
        (first_vertices.as_slice(), first_indices.as_slice()),
        (second_vertices.as_slice(), second_indices.as_slice()),
    ])
    .expect("two groups");
    let at_once = merge_parts(&[
        (&a_vertices[..], &a_indices[..]),
        (&b_vertices[..], &b_indices[..]),
        (&c_vertices[..], &c_indices[..]),
    ])
    .expect("three parts");

    assert_eq!(grouped, at_once);
    assert_eq!(at_once.1, vec![0, 1, 0, 2, 2, 2, 5, 4, 3]);
}
