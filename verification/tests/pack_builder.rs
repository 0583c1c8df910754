use anthroforge_core::pack_builder::{
    build_pack, classify_file, parse_part_id, skeleton_length, AssetFile, FileRole, Offered,
    PackScan, PendingPart, GLB_SOURCE, OBJ_SOURCE,
};

/// What a directory listing gives for the file `name` in `dir`.
fn file(dir: &str, name: &str) -> AssetFile {
    let (stem, extension) = match name.rfind('.') {
        Some(dot) if dot > 0 => (&name[..dot], Some(name[dot + 1..].to_string())),
        _ => (name, None),
    };
    AssetFile {
        file_name: Some(name.to_string()),
        stem: Some(stem.to_string()),
        extension,
        display: format!("{dir}/{name}"),
    }
}

/// Scans a directory given as names with contents, and builds its pack.
fn run(dir: &str, files: &[(&str, &[u8])]) -> Result<(usize, Vec<u8>), String> {
    let skeleton = files
        .iter()
        .find(|f| f.0 == "master_skeleton.json")
        .expect("there is a skeleton")
        .1;
    let mut scan = PackScan::new();
    let mut bytes: Vec<Vec<u8>> = Vec::new();
    for (name, contents) in files {
        if let Offered::Accepted = scan.offer(file(dir, name))? {
            bytes.push(contents.to_vec());
        }
    }
    let count = scan.part_count(dir)?;
    skeleton_length(&format!("{dir}/master_skeleton.json"), skeleton.len())?;
    let pack = build_pack(skeleton, &scan.pending, &bytes)?;
    Ok((count as usize, pack))
}

fn le(bytes: &[u8]) -> usize {
    u32::from_le_bytes(bytes.try_into().unwrap()) as usize
}

const SKELETON: (&str, &[u8]) = ("master_skeleton.json", br#"{"bones":{"root":0}}"#);

#[test]
fn structural_round_trip() {
    let files: [(&str, &[u8]); 3] = [
        SKELETON,
        ("1001_head.obj", b"v 0 0 0\n"),
        ("1002_torso.glb", b"glTF\x02\x00\x00\x00fakebinarydata"),
    ];
    let (part_count, buf) = run("roundtrip", &files).expect("run should succeed");
    assert_eq!(part_count, 2);

    assert_eq!(&buf[0..4], b"AFPP");
    let version = u32::from_le_bytes(buf[4..8].try_into().unwrap());
    assert_eq!(version, 1);
    let part_count_field = u32::from_le_bytes(buf[8..12].try_into().unwrap());
    assert_eq!(part_count_field as usize, part_count);
    let skel_len = u32::from_le_bytes(buf[12..16].try_into().unwrap()) as usize;

    let index_start = 16 + skel_len;
    for i in 0..part_count {
        let entry_start = index_start + i * 13;
        let entry = &buf[entry_start..entry_start + 13];
        let data_offset = u32::from_le_bytes(entry[5..9].try_into().unwrap()) as usize;
        let data_len = u32::from_le_bytes(entry[9..13].try_into().unwrap()) as usize;
        assert!(data_offset + data_len <= buf.len(), "index entry {i} reads out of bounds");
    }
}

#[test]
fn every_part_reads_back_from_the_pack() {
    let files: [(&str, &[u8]); 4] = [
        ("7.OBJ", b"seven"),
        SKELETON,
        ("12345678_x.glb", b""),
        ("0001_y.Glb", b"\x00\xff\x80"),
    ];
    let (count, buf) = run("d", &files).expect("run");
    assert_eq!(count, 3);
    let skel_len = le(&buf[12..16]);
    assert_eq!(&buf[16..16 + skel_len], SKELETON.1);
    let expected: [(usize, u8, &[u8]); 3] =
        [(7, OBJ_SOURCE, b"seven"), (12_345_678, GLB_SOURCE, b""), (1, GLB_SOURCE, b"\x00\xff\x80")];
    for (i, (id, source, data)) in expected.iter().enumerate() {
        let entry = &buf[16 + skel_len + 13 * i..][..13];
        assert_eq!(le(&entry[0..4]), *id);
        assert_eq!(entry[4], *source);
        let at = le(&entry[5..9]);
        let len = le(&entry[9..13]);
        assert_eq!(&buf[at..at + len], *data);
    }
    assert_eq!(buf.len(), 16 + skel_len + 3 * 13 + 8);
}

#[test]
fn a_pack_is_laid_out_byte_by_byte() {
    let parts = vec![PendingPart { part_id: 0x0102_0304, src_type: 1, display: String::new() }];
    let pack = build_pack(b"{}", &parts, &vec![vec![9, 8, 7]]).expect("a small pack");
    assert_eq!(
        pack,
        [
            b'A', b'F', b'P', b'P', 1, 0, 0, 0, 1, 0, 0, 0, 2, 0, 0, 0, b'{', b'}', 4, 3, 2, 1, 1,
            31, 0, 0, 0, 3, 0, 0, 0, 9, 8, 7,
        ]
    );
}

#[test]
fn duplicate_part_id_errors() {
    let files: [(&str, &[u8]); 3] = [
        SKELETON,
        ("1001_head.obj", b"v 0 0 0\n"),
        ("1001_head_alt.glb", b"glTF\x02\x00\x00\x00x"),
    ];
    let result = run("dupe", &files);
    assert!(result.is_err());
    assert_eq!(
        result.unwrap_err(),
        "duplicate part id 1001: both 'dupe/1001_head.obj' and 'dupe/1001_head_alt.glb' resolve to this id"
    );
}

#[test]
fn gltf_file_is_skipped_with_warning_and_run_still_succeeds() {
    let files: [(&str, &[u8]); 3] = [
        SKELETON,
        ("1001_head.obj", b"v 0 0 0\n"),
        ("2002_legacy.gltf", b"{\"not\":\"embedded\"}"),
    ];
    let result = run("gltfskip", &files);
    assert!(result.is_ok());
    let (part_count, _) = result.unwrap();
    // Only the .obj part should have been accepted; the .gltf is skipped.
    assert_eq!(part_count, 1);

    let mut scan = PackScan::new();
    match scan.offer(file("gltfskip", "2002_legacy.gltf")) {
        Ok(Offered::Skipped { warning }) => assert_eq!(
            warning,
            "skipping 'gltfskip/2002_legacy.gltf': .gltf not supported by this tool, convert to .glb first"
        ),
        other => panic!("expected a warning, got {other:?}"),
    }
}

#[test]
fn a_part_without_a_number_is_skipped() {
    let mut scan = PackScan::new();
    match scan.offer(file("d", "head.obj")) {
        Ok(Offered::Skipped { warning }) => assert_eq!(
            warning,
            "skipping 'd/head.obj': filename does not start with a numeric part id"
        ),
        other => panic!("expected a warning, got {other:?}"),
    }
    assert_eq!(
        scan.part_count("d"),
        Err("no valid .obj/.glb part files were found in 'd'".to_string())
    );
}

#[test]
fn other_files_are_errors() {
    for name in ["1001.png", "other.json", "README", "Master_Skeleton.json"] {
        let mut scan = PackScan::new();
        let err = scan.offer(file("d", name)).expect_err("not a part");
        assert_eq!(
            err,
            format!("unrecognized file extension for 'd/{name}' (only .obj and .glb part files, plus master_skeleton.json, are accepted)")
        );
    }
    assert!(matches!(classify_file(&file("d", "master_skeleton.json")), FileRole::Skeleton));
}

#[test]
fn part_ids_are_leading_digits() {
    assert_eq!(parse_part_id("1001_head_male"), Some(1001));
    assert_eq!(parse_part_id("0042"), Some(42));
    assert_eq!(parse_part_id("4294967295x"), Some(u32::MAX));
    assert_eq!(parse_part_id("4294967296"), None);
    assert_eq!(parse_part_id("99999999999999999999999"), None);
    assert_eq!(parse_part_id("00000000000000000000000000007"), Some(7));
    assert_eq!(parse_part_id("head_1001"), None);
    assert_eq!(parse_part_id("٣"), None);
    assert_eq!(parse_part_id(""), None);
}

#[test]
fn lengths_must_fit_the_header() {
    assert_eq!(skeleton_length("s", 17), Ok(17));
    assert_eq!(
        skeleton_length("s", 4_294_967_296),
        Err("master_skeleton.json at 's' is too large to represent in this format's u32 length field (4294967296 bytes)".to_string())
    );
}
