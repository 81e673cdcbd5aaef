use bridge_search::bridge::BridgeIndex;
use bridge_search::errors::BridgeError;
use bridge_search::snapshot::{decode_metadata, encode_metadata, IndexMetadata};

fn bits(v: &[f32]) -> Vec<u32> {
    v.iter().map(|x| x.to_bits()).collect()
}

#[test]
fn add_hands_out_increasing_ids_and_fills_the_map() {
    let mut idx = BridgeIndex::new("docs_d4".to_string(), 4, 10);
    let n = 5;
    let mut ids = Vec::new();
    for i in 0..n {
        let id = idx.add(format!("doc {}", i), &bits(&[0.1, 0.2, 0.3, 0.4])).unwrap();
        ids.push(id);
    }
    // Distinct ids drawn from 0..n, strictly increasing in completion order.
    for (i, id) in ids.iter().enumerate() {
        assert_eq!(*id, i as i64);
    }
    assert_eq!(idx.texts.len(), n);
    assert_eq!(idx.next_id, n as i64);
}

#[test]
fn add_rejects_dimension_mismatch_without_burning_an_id() {
    let mut idx = BridgeIndex::new("docs_d4".to_string(), 4, 10);
    let err = idx.add("bad".to_string(), &bits(&[1.0, 2.0])).unwrap_err();
    assert!(matches!(err, BridgeError::Validation(_)));
    assert_eq!(idx.next_id, 0);
    assert_eq!(idx.texts.len(), 0);

    // The next successful add still receives id 0.
    let id = idx.add("good".to_string(), &bits(&[1.0, 2.0, 3.0, 4.0])).unwrap();
    assert_eq!(id, 0);
}

#[test]
fn add_batch_assigns_consecutive_ids() {
    let mut idx = BridgeIndex::new("docs_d2".to_string(), 2, 10);
    let docs = vec![
        ("a".to_string(), bits(&[1.0, 2.0])),
        ("b".to_string(), bits(&[3.0, 4.0])),
        ("c".to_string(), bits(&[5.0, 6.0])),
    ];
    let ids = idx.add_batch(docs).unwrap();
    assert_eq!(ids, vec![0, 1, 2]);
    assert_eq!(idx.next_id, 3);
    assert_eq!(idx.texts.get(1), Some("b".to_string()));
}

#[test]
fn add_batch_rejects_empty_and_mismatched_batches() {
    let mut idx = BridgeIndex::new("docs_d2".to_string(), 2, 10);
    let err = idx.add_batch(Vec::new()).unwrap_err();
    assert!(matches!(err, BridgeError::Validation(_)));

    let docs = vec![
        ("a".to_string(), bits(&[1.0, 2.0])),
        ("b".to_string(), bits(&[3.0])),
    ];
    let err = idx.add_batch(docs).unwrap_err();
    assert!(matches!(err, BridgeError::Validation(_)));
    // The whole batch failed before any id was allocated.
    assert_eq!(idx.next_id, 0);
    assert_eq!(idx.texts.len(), 0);
}

#[test]
fn delete_removes_text_entries_only() {
    let mut idx = BridgeIndex::new("docs_d1".to_string(), 1, 10);
    idx.add("zero".to_string(), &bits(&[0.0])).unwrap();
    idx.add("one".to_string(), &bits(&[1.0])).unwrap();
    idx.delete(&vec![0]);
    assert_eq!(idx.texts.get(0), None);
    assert_eq!(idx.texts.get(1), Some("one".to_string()));
    // Ids are never reused after deletion.
    let id = idx.add("two".to_string(), &bits(&[2.0])).unwrap();
    assert_eq!(id, 2);
}

#[test]
fn snapshot_round_trip_reproduces_the_state() {
    let mut idx = BridgeIndex::new("docs_d2".to_string(), 2, 7);
    idx.add("alpha".to_string(), &bits(&[1.0, 2.0])).unwrap();
    idx.add("beta".to_string(), &bits(&[3.0, 4.0])).unwrap();

    let meta = IndexMetadata::from_runtime(&idx, 999);
    assert_eq!(meta.snapshot_id, 999);

    let bytes = encode_metadata(&meta).unwrap();
    let back = decode_metadata(&bytes).unwrap();
    let restored = BridgeIndex::from_metadata(&back).unwrap();

    assert_eq!(restored.name, idx.name);
    assert_eq!(restored.dimension, idx.dimension);
    assert_eq!(restored.k, idx.k);
    assert_eq!(restored.next_id, idx.next_id);
    assert_eq!(restored.texts.len(), 2);
    assert_eq!(restored.texts.get(0), Some("alpha".to_string()));
    assert_eq!(restored.texts.get(1), Some("beta".to_string()));
}

#[test]
fn from_metadata_rejects_an_invalid_descriptor() {
    let mut meta = IndexMetadata::new("bad_d0".to_string(), 1, 1, 1);
    meta.dimension = 0;
    assert!(matches!(BridgeIndex::from_metadata(&meta), Err(BridgeError::Persistence(_))));
    meta.dimension = 2;
    meta.next_id = -1;
    assert!(BridgeIndex::from_metadata(&meta).is_err());
}
