use bridge_search::errors::BridgeError;
use bridge_search::snapshot::{
    decode_metadata, encode_metadata, generations_to_delete, latest_generation, sort_generations,
    IndexMetadata,
};

#[test]
fn metadata_new_starts_fresh() {
    let m = IndexMetadata::new("idx_d4".to_string(), 4, 10, 123);
    assert_eq!(m.name, "idx_d4");
    assert_eq!(m.dimension, 4);
    assert_eq!(m.k, 10);
    assert_eq!(m.next_id, 0);
    assert!(m.text_map.is_empty());
    assert_eq!(m.snapshot_id, 123);
    assert_eq!(m.timestamp, 123);
}

#[test]
fn metadata_round_trip_is_identical() {
    let m = IndexMetadata {
        name: "docs_d3".to_string(),
        dimension: 3,
        k: 7,
        next_id: 2,
        text_map: vec![(0, "first".to_string()), (1, "second".to_string())],
        snapshot_id: 555,
        timestamp: 556,
    };
    let bytes = encode_metadata(&m).unwrap();
    let back = decode_metadata(&bytes).unwrap();
    assert_eq!(back.name, m.name);
    assert_eq!(back.dimension, m.dimension);
    assert_eq!(back.k, m.k);
    assert_eq!(back.next_id, m.next_id);
    assert_eq!(back.text_map, m.text_map);
    assert_eq!(back.snapshot_id, m.snapshot_id);
    assert_eq!(back.timestamp, m.timestamp);
}

#[test]
fn metadata_decode_rejects_garbage() {
    let r = decode_metadata(&[1, 2, 3]);
    assert!(matches!(r, Err(BridgeError::Persistence(_))));
}

#[test]
fn metadata_decode_rejects_trailing_bytes() {
    let m = IndexMetadata::new("x_d1".to_string(), 1, 1, 1);
    let mut bytes = encode_metadata(&m).unwrap();
    bytes.push(0);
    assert!(decode_metadata(&bytes).is_err());
}

#[test]
fn generations_sort_ascending() {
    let sorted = sort_generations(vec![5, 1, 3, 2]);
    assert_eq!(sorted, vec![1, 2, 3, 5]);
}

#[test]
fn latest_generation_is_the_maximum() {
    assert_eq!(latest_generation(&vec![5, 1, 9, 3]), Some(9));
    assert_eq!(latest_generation(&Vec::new()), None);
}

#[test]
fn cleanup_keeps_the_newest_generations() {
    // Keep the two newest of four: the two oldest go.
    assert_eq!(generations_to_delete(vec![5, 1, 3, 2], 2), vec![1, 2]);
    // At most `keep` generations: nothing goes.
    assert_eq!(generations_to_delete(vec![5, 1], 2), Vec::<u64>::new());
    assert_eq!(generations_to_delete(Vec::new(), 3), Vec::<u64>::new());
}
