use meter_core::dungeon_dirty_blob::{parse_dirty_dungeon_data, BlobError, DirtyDungeonTarget};

fn word(v: i32) -> Vec<u8> {
    let mut w = v.to_le_bytes().to_vec();
    w.extend_from_slice(&[0, 0, 0, 0]);
    w
}

fn words(vs: &[i32]) -> Vec<u8> {
    let mut out = Vec::new();
    for v in vs {
        out.extend_from_slice(&word(*v));
    }
    out
}

#[test]
fn empty_target_map_decodes_to_no_targets() {
    // Outer container with field 4, whose inner field 1 map opens with EMPTY.
    let blob = words(&[-2, 56, 4, -2, 24, 1, -4, -3, -3]);
    let got = parse_dirty_dungeon_data(&blob).unwrap();
    assert_eq!(got.flow_state, None);
    assert!(got.targets.is_empty());
}

#[test]
fn flow_state_and_targets_decode() {
    // field 2 -> flow container { field 1 -> 7 }, then field 4 -> targets
    // container { field 1 -> map with one added entry }.
    let target_container = [-2i32, 56, 1, 11, 2, 3, 3, 1, -3];
    let mut body = vec![
        2, -2, 24, 1, 7, -3, // flow info container
        4, -2, 120, 1, // targets container, field 1
        1, 0, 0, // add = 1, remove = 0, update = 0
        42, // map key
    ];
    body.extend_from_slice(&target_container);
    body.push(-3); // targets container END
    body.push(-3); // outer END
    let mut blob = words(&[-2, (body.len() * 8) as i32]);
    blob.extend_from_slice(&words(&body));
    let got = parse_dirty_dungeon_data(&blob).unwrap();
    assert_eq!(got.flow_state, Some(7));
    assert_eq!(
        got.targets,
        vec![DirtyDungeonTarget { target_id: 11, nums: 3, complete: 1 }]
    );
}

#[test]
fn decode_is_idempotent() {
    let blob = words(&[-2, 56, 4, -2, 24, 1, -4, -3, -3]);
    let first = parse_dirty_dungeon_data(&blob);
    let second = parse_dirty_dungeon_data(&blob);
    assert_eq!(first, second);
    let garbage = words(&[-2, 8, 5]);
    assert_eq!(parse_dirty_dungeon_data(&garbage), parse_dirty_dungeon_data(&garbage));
}

#[test]
fn empty_outer_container_decodes_to_default() {
    // size equal to the END sentinel marks an immediately empty container.
    let blob = words(&[-2, -3]);
    let got = parse_dirty_dungeon_data(&blob).unwrap();
    assert_eq!(got.flow_state, None);
    assert!(got.targets.is_empty());
}

#[test]
fn bad_begin_tag_is_an_error() {
    let blob = words(&[5, -3]);
    assert_eq!(parse_dirty_dungeon_data(&blob), Err(BlobError::BadBegin(5)));
}

#[test]
fn negative_size_is_an_error() {
    let blob = words(&[-2, -7]);
    assert_eq!(parse_dirty_dungeon_data(&blob), Err(BlobError::NegativeSize(-7)));
}

#[test]
fn truncated_blob_is_an_error() {
    assert_eq!(parse_dirty_dungeon_data(&[]), Err(BlobError::Eof));
    assert_eq!(parse_dirty_dungeon_data(&word(-2)[..7]), Err(BlobError::Eof));
    assert_eq!(parse_dirty_dungeon_data(&word(-2)), Err(BlobError::Eof));
}

#[test]
fn oversized_body_is_an_error() {
    let blob = words(&[-2, 800, 4]);
    assert_eq!(parse_dirty_dungeon_data(&blob), Err(BlobError::BodyOutOfRange));
}

#[test]
fn negative_map_count_is_an_error() {
    // Outer field 4 -> targets container field 1 -> map counts (1, -1, 0).
    let blob = words(&[-2, 72, 4, -2, 40, 1, 1, -1, 0, -3, -3]);
    assert_eq!(parse_dirty_dungeon_data(&blob), Err(BlobError::NegativeCount));
}
