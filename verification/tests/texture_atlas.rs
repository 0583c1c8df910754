use anthroforge_core::error::{anthroforge_last_error, LastError};
use anthroforge_core::single::Single;
use anthroforge_core::texture_atlas::{
    blit_to_quadrant, generate_runtime_atlas, generate_runtime_atlas_impl, remap_uvs_for_quadrant,
    AtlasError, Quadrant, RawImage, Uv,
};

fn s(x: f32) -> Single {
    Single { bits: x.to_bits() }
}

fn make_image(width: u32, height: u32, fill: u8) -> RawImage {
    let pixels = vec![fill; (width * height * 4) as usize];
    RawImage { width, height, total_bytes: pixels.len() as u32, pixels: Some(pixels) }
}

#[test]
fn blit_places_pixels_in_correct_quadrant() {
    let head = make_image(64, 64, 0xAA);
    let mut atlas = vec![0u8; 128 * 128 * 4];

    blit_to_quadrant(&mut atlas, 128, 128, &head, Quadrant::TopRight).unwrap();

    // Top-right quadrant origin is (64, 0).
    let px_idx = (0u64 * 128 + 64) * 4;
    assert_eq!(atlas[px_idx as usize], 0xAA);
    // Top-left quadrant must remain untouched.
    assert_eq!(atlas[0], 0);
}

#[test]
fn blit_rejects_oversized_source() {
    let oversized = make_image(200, 64, 0xFF);
    let mut atlas = vec![0u8; 128 * 128 * 4];

    let err = blit_to_quadrant(&mut atlas, 128, 128, &oversized, Quadrant::TopLeft)
        .expect_err("oversized source must be rejected");

    assert!(matches!(err, AtlasError::SourceTooLarge { .. }));
    assert_eq!(
        err.message(),
        "SourceTooLarge { source_width: 200, source_height: 64, quadrant_width: 64, quadrant_height: 64 }"
    );
    // Nothing should have been written.
    assert!(atlas.iter().all(|&b| b == 0));
}

#[test]
fn blit_rejects_byte_length_mismatch() {
    let mut bad = make_image(32, 32, 0x11);
    bad.total_bytes -= 4; // lie about the length

    let mut atlas = vec![0u8; 128 * 128 * 4];
    let err = blit_to_quadrant(&mut atlas, 128, 128, &bad, Quadrant::BottomLeft)
        .expect_err("mismatched byte length must be rejected");

    assert!(matches!(err, AtlasError::ByteLengthMismatch { .. }));
    assert_eq!(err.message(), "ByteLengthMismatch { expected: 4096, actual: 4092 }");
    assert!(atlas.iter().all(|&b| b == 0));
}

#[test]
fn blit_rejects_what_has_no_size_or_no_pixels() {
    let mut atlas = vec![0u8; 8 * 8 * 4];
    let image = make_image(2, 2, 7);
    let empty = RawImage { width: 2, height: 2, pixels: None, total_bytes: 16 };
    let thin = RawImage { width: 0, height: 2, pixels: Some(vec![]), total_bytes: 0 };
    assert_eq!(
        blit_to_quadrant(&mut atlas, 0, 8, &image, Quadrant::TopLeft),
        Err(AtlasError::InvalidAtlasSize)
    );
    assert_eq!(
        blit_to_quadrant(&mut atlas, 8, 8, &empty, Quadrant::TopLeft),
        Err(AtlasError::NullPixelData)
    );
    assert_eq!(
        blit_to_quadrant(&mut atlas, 8, 8, &thin, Quadrant::TopLeft),
        Err(AtlasError::InvalidSourceDimensions)
    );
}

#[test]
fn blit_into_a_short_buffer_stops_at_the_first_row_that_does_not_fit() {
    let image = make_image(2, 2, 9);
    // Room for the first row of the bottom-left quadrant, not for the second.
    let mut atlas = vec![0u8; 4 * 4 * 2 + 4 * 4 + 3];
    let err = blit_to_quadrant(&mut atlas, 4, 4, &image, Quadrant::BottomLeft)
        .expect_err("the buffer is too short");
    assert_eq!(err, AtlasError::AtlasBufferTooSmall);
    assert_eq!(&atlas[32..40], &[9; 8]);
    assert!(atlas[..32].iter().chain(&atlas[40..]).all(|&b| b == 0));
}

#[test]
fn blit_keeps_the_order_of_pixels() {
    let pixels: Vec<u8> = (1..=24).collect();
    let image = RawImage { width: 3, height: 2, pixels: Some(pixels.clone()), total_bytes: 24 };
    let mut atlas = vec![0u8; 8 * 8 * 4];
    blit_to_quadrant(&mut atlas, 8, 8, &image, Quadrant::BottomRight).unwrap();
    for y in 0..2 {
        for x in 0..3 {
            for c in 0..4 {
                assert_eq!(atlas[((4 + y) * 8 + 4 + x) * 4 + c], pixels[(y * 3 + x) * 4 + c]);
            }
        }
    }
    assert_eq!(atlas.iter().filter(|&&b| b != 0).count(), 24);
}

#[test]
fn full_pipeline_generates_and_frees_atlas() {
    let head = make_image(512, 512, 1);
    let torso = make_image(512, 512, 2);
    let legs = make_image(512, 512, 3);
    let feet = make_image(512, 512, 4);

    let mut slot = LastError::new();
    let output = generate_runtime_atlas(
        &mut slot,
        Some(&head),
        Some(&torso),
        Some(&legs),
        Some(&feet),
        1024,
    )
    .expect("valid images make an atlas");

    assert_eq!(output.quadrant_width, 512);
    assert_eq!(output.atlas_image.width, 1024);
    assert_eq!(output.atlas_image.total_bytes, 1024 * 1024 * 4);
}

#[test]
fn atlas_validation_failure_sets_specific_last_error() {
    let torso = make_image(512, 512, 2);
    let mut slot = LastError::new();
    // `head` is required and null here, so this must fail with
    // `AtlasError::NullRequiredSource`.
    let out = generate_runtime_atlas(&mut slot, None, Some(&torso), None, None, 1024);
    assert!(out.is_none());

    let message = anthroforge_last_error(&slot).expect("validation failure must set a last error");
    assert!(
        message.contains("NullRequiredSource"),
        "expected the specific AtlasError variant in the message, got: {message}"
    );
    assert_eq!(message, "generate_runtime_atlas failed: NullRequiredSource");
}

#[test]
fn invalid_atlas_size_sets_specific_last_error() {
    let head = make_image(64, 64, 1);
    let torso = make_image(64, 64, 2);
    let mut slot = LastError::new();
    // Odd target size is rejected by `InvalidAtlasSize`.
    let out = generate_runtime_atlas(&mut slot, Some(&head), Some(&torso), None, None, 3);
    assert!(out.is_none());

    let message = anthroforge_last_error(&slot).expect("validation failure must set a last error");
    assert!(message.contains("InvalidAtlasSize"), "got: {message}");
}

#[test]
fn successful_atlas_generation_clears_prior_last_error() {
    let mut slot = LastError::new();
    // First induce a failure so a stale message exists.
    let out = generate_runtime_atlas(&mut slot, None, None, None, None, 1024);
    assert!(out.is_none());
    assert!(anthroforge_last_error(&slot).is_some());

    // Then a real success must clear it.
    let head = make_image(512, 512, 1);
    let torso = make_image(512, 512, 2);
    let output = generate_runtime_atlas(&mut slot, Some(&head), Some(&torso), None, None, 1024);
    assert!(output.is_some());
    assert!(
        anthroforge_last_error(&slot).is_none(),
        "a successful call must clear any previously-recorded error"
    );
}

#[test]
fn full_pipeline_all_quadrants_receive_correct_distinct_data() {
    let atlas_size = 256u32;
    let quadrant_size = atlas_size / 2; // 128, fills each quadrant exactly

    let head = make_image(quadrant_size, quadrant_size, 0x11);
    let torso = make_image(quadrant_size, quadrant_size, 0x22);
    let legs = make_image(quadrant_size, quadrant_size, 0x33);
    let feet = make_image(quadrant_size, quadrant_size, 0x44);

    let mut slot = LastError::new();
    let output = generate_runtime_atlas(
        &mut slot,
        Some(&head),
        Some(&torso),
        Some(&legs),
        Some(&feet),
        atlas_size,
    )
    .expect("valid images make an atlas");
    let bytes = output.atlas_image.pixels.as_ref().expect("an atlas has pixels");

    let px = |x: u32, y: u32| -> u8 {
        let idx = (y as u64 * atlas_size as u64 + x as u64) * 4;
        bytes[idx as usize]
    };

    let q = quadrant_size;

    // Interior of each quadrant.
    assert_eq!(px(0, 0), 0x11, "top-left interior should be head data");
    assert_eq!(px(q, 0), 0x22, "top-right interior should be torso data");
    assert_eq!(px(0, q), 0x33, "bottom-left interior should be legs data");
    assert_eq!(px(q, q), 0x44, "bottom-right interior should be feet data");

    // Seam pixels either side of the vertical boundary (x = q) on
    // the top row: must not bleed across quadrants.
    assert_eq!(px(q - 1, 0), 0x11, "last column of head must stay head data");
    assert_eq!(px(q, 0), 0x22, "first column of torso must not be overwritten");

    // Seam pixels either side of the horizontal boundary (y = q)
    // in the left column: must not bleed across quadrants.
    assert_eq!(px(0, q - 1), 0x11, "last row of head must stay head data");
    assert_eq!(px(0, q), 0x33, "first row of legs must not be overwritten");

    // Far corner of each quadrant (exercises the whole quadrant,
    // not just its origin pixel).
    assert_eq!(px(q - 1, q - 1), 0x11, "head's far corner");
    assert_eq!(px(atlas_size - 1, 0), 0x22, "torso's far corner");
    assert_eq!(px(0, atlas_size - 1), 0x33, "legs' far corner");
    assert_eq!(px(atlas_size - 1, atlas_size - 1), 0x44, "feet's far corner");
}

#[test]
fn null_required_source_returns_null() {
    let torso = make_image(512, 512, 2);
    let mut slot = LastError::new();
    let out = generate_runtime_atlas(&mut slot, None, Some(&torso), None, None, 1024);
    assert!(out.is_none());
}

#[test]
fn missing_optional_quadrants_are_zeroed() {
    let head = make_image(512, 512, 9);
    let torso = make_image(512, 512, 9);

    let mut slot = LastError::new();
    let output = generate_runtime_atlas(&mut slot, Some(&head), Some(&torso), None, None, 1024)
        .expect("legs and feet are optional");
    let bytes = output.atlas_image.pixels.as_ref().expect("an atlas has pixels");
    // Bottom-right (feet) quadrant origin: (512, 512).
    let idx = (512u64 * 1024 + 512) * 4;
    assert_eq!(bytes[idx as usize], 0);
}

#[test]
fn the_first_image_that_does_not_fit_is_reported() {
    let fine = make_image(4, 4, 1);
    let large = make_image(5, 4, 1);
    let mut odd = make_image(4, 4, 1);
    odd.total_bytes = 60;
    let err = generate_runtime_atlas_impl(Some(&fine), Some(&large), Some(&odd), None, 8)
        .expect_err("the torso is too large");
    assert!(matches!(err, AtlasError::SourceTooLarge { source_width: 5, .. }));
    let err = generate_runtime_atlas_impl(Some(&fine), Some(&fine), None, Some(&odd), 8)
        .expect_err("the feet are short");
    assert_eq!(err, AtlasError::ByteLengthMismatch { expected: 64, actual: 60 });
    for size in [0, 32768, 65536, 4_294_967_294] {
        assert_eq!(
            generate_runtime_atlas_impl(None, None, None, None, size).err(),
            Some(AtlasError::InvalidAtlasSize)
        );
    }
}

#[test]
fn generate_runtime_atlas_panic_is_caught_not_propagated() {
    let head = make_image(4, 4, 1);
    let torso = make_image(4, 4, 2);

    let mut slot = LastError::new();
    let out =
        generate_runtime_atlas(&mut slot, Some(&head), Some(&torso), None, None, 0xDEAD_BEEF);

    assert!(out.is_none(), "a size that cannot be built must come back as nothing, not as a panic");
}

#[test]
fn uv_remap_matches_quadrant_bounds() {
    let mut uvs = [
        Uv { u: s(0.0), v: s(0.0) },
        Uv { u: s(1.0), v: s(1.0) },
        Uv { u: s(0.5), v: s(0.5) },
    ];
    remap_uvs_for_quadrant(&mut uvs, Quadrant::BottomRight);

    assert_eq!(uvs[0], Uv { u: s(0.5), v: s(0.5) });
    assert_eq!(uvs[1], Uv { u: s(1.0), v: s(1.0) });
    assert_eq!(uvs[2], Uv { u: s(0.75), v: s(0.75) });
}

#[test]
fn remapped_coordinates_stay_in_their_quadrant() {
    let quadrants =
        [Quadrant::TopLeft, Quadrant::TopRight, Quadrant::BottomLeft, Quadrant::BottomRight];
    for quadrant in quadrants {
        let (least, greatest) = quadrant.uv_bounds();
        for x in [0.0f32, 1e-45, 1e-9, 0.1, 0.33333334, 0.99999994, 1.0] {
            let mut uvs = [Uv { u: s(x), v: s(1.0 - x) }];
            remap_uvs_for_quadrant(&mut uvs, quadrant);
            assert!(least.u.at_most(uvs[0].u) && uvs[0].u.at_most(greatest.u));
            assert!(least.v.at_most(uvs[0].v) && uvs[0].v.at_most(greatest.v));
        }
    }
}

#[test]
fn quadrants_start_where_the_others_end() {
    assert_eq!(Quadrant::TopLeft.origin(3, 5), (0, 0));
    assert_eq!(Quadrant::TopRight.origin(3, 5), (3, 0));
    assert_eq!(Quadrant::BottomLeft.origin(3, 5), (0, 5));
    assert_eq!(Quadrant::BottomRight.origin(3, 5), (3, 5));
}

#[test]
fn every_atlas_error_has_its_name() {
    assert_eq!(AtlasError::DimensionOverflow.message(), "DimensionOverflow");
    assert_eq!(AtlasError::SourceBufferTooSmall.message(), "SourceBufferTooSmall");
    assert_eq!(AtlasError::ThreadPanicked.message(), "ThreadPanicked");
    assert_eq!(AtlasError::AtlasBufferTooSmall.message(), "AtlasBufferTooSmall");
    assert_eq!(AtlasError::InvalidSourceDimensions.message(), "InvalidSourceDimensions");
    assert_eq!(AtlasError::NullPixelData.message(), "NullPixelData");
}
