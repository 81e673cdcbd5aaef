use bridge_search::errors::BridgeError;
use bridge_search::wal::{Operation, WalEntry, WalReader, WalState};

fn bits(v: &[f32]) -> Vec<u32> {
    v.iter().map(|x| x.to_bits()).collect()
}

#[test]
fn test_wal_write_read() {
    let mut wal = WalState::new();
    wal.append(&Operation::create_index("test".to_string(), 768, 10, 1)).unwrap();
    wal.append(&Operation::add(
        "test".to_string(),
        1,
        "hello world".to_string(),
        bits(&[1.0, 2.0, 3.0]),
        2,
    ))
    .unwrap();
    let bytes = wal.take_buffered();

    let mut reader = WalReader::new(bytes);
    let ops = reader.read_all().unwrap();
    assert_eq!(ops.len(), 2);
}

#[test]
fn wal_round_trip_preserves_all_fields() {
    let mut wal = WalState::new();
    let vector = bits(&[1.0, 2.0, 3.0, 4.0]);
    wal.append(&Operation::create_index("t".to_string(), 4, 5, 11)).unwrap();
    wal.append(&Operation::add("t".to_string(), 0, "hello".to_string(), vector.clone(), 12))
        .unwrap();
    let bytes = wal.take_buffered();

    let mut reader = WalReader::new(bytes);
    let ops = reader.read_all().unwrap();
    assert_eq!(ops.len(), 2);
    match &ops[0] {
        Operation::CreateIndex { name, dimension, k, timestamp } => {
            assert_eq!(name, "t");
            assert_eq!(*dimension, 4);
            assert_eq!(*k, 5);
            assert_eq!(*timestamp, 11);
        }
        other => panic!("unexpected operation: {:?}", other),
    }
    match &ops[1] {
        Operation::Add { index, id, text, vector: v, timestamp } => {
            assert_eq!(index, "t");
            assert_eq!(*id, 0);
            assert_eq!(text, "hello");
            assert_eq!(v, &vector);
            assert_eq!(*timestamp, 12);
        }
        other => panic!("unexpected operation: {:?}", other),
    }
}

#[test]
fn wal_round_trip_delete_and_checkpoint() {
    let mut wal = WalState::new();
    wal.append(&Operation::delete("idx".to_string(), vec![3, -7, 9], 21)).unwrap();
    wal.append(&Operation::checkpoint(42, 22)).unwrap();
    let bytes = wal.take_buffered();

    let ops = WalReader::new(bytes).read_all().unwrap();
    assert_eq!(ops.len(), 2);
    match &ops[0] {
        Operation::Delete { index, ids, timestamp } => {
            assert_eq!(index, "idx");
            assert_eq!(ids, &vec![3, -7, 9]);
            assert_eq!(*timestamp, 21);
        }
        other => panic!("unexpected operation: {:?}", other),
    }
    match &ops[1] {
        Operation::Checkpoint { snapshot_id, timestamp } => {
            assert_eq!(*snapshot_id, 42);
            assert_eq!(*timestamp, 22);
        }
        other => panic!("unexpected operation: {:?}", other),
    }
}

#[test]
fn wal_corruption_is_a_checksum_error() {
    let mut wal = WalState::new();
    wal.append(&Operation::add(
        "t".to_string(),
        0,
        "hello".to_string(),
        bits(&[1.0, 2.0, 3.0, 4.0]),
        1,
    ))
    .unwrap();
    let mut bytes = wal.take_buffered();

    // Flip one payload byte (the payload starts after the 8-byte header).
    bytes[8] ^= 0x01;

    let result = WalReader::new(bytes).read_all();
    match result {
        Err(BridgeError::Persistence(_)) => {}
        other => panic!("expected a checksum failure, got {:?}", other),
    }
}

#[test]
fn wal_incomplete_trailing_frame_is_end_of_log() {
    let mut wal = WalState::new();
    wal.append(&Operation::checkpoint(1, 1)).unwrap();
    wal.append(&Operation::checkpoint(2, 2)).unwrap();
    let mut bytes = wal.take_buffered();

    // Drop the last byte, truncating the second frame.
    bytes.pop();

    let ops = WalReader::new(bytes).read_all().unwrap();
    assert_eq!(ops.len(), 1);
    match &ops[0] {
        Operation::Checkpoint { snapshot_id, .. } => assert_eq!(*snapshot_id, 1),
        other => panic!("unexpected operation: {:?}", other),
    }
}

#[test]
fn wal_read_since_checkpoint() {
    let mut wal = WalState::new();
    wal.append(&Operation::create_index("a".to_string(), 2, 1, 1)).unwrap();
    wal.append(&Operation::checkpoint(7, 2)).unwrap();
    wal.append(&Operation::delete("a".to_string(), vec![0], 3)).unwrap();
    let bytes = wal.take_buffered();

    let tail = WalReader::new(bytes.clone()).read_since_checkpoint(7).unwrap();
    assert_eq!(tail.len(), 1);
    assert!(matches!(&tail[0], Operation::Delete { .. }));

    // An unknown checkpoint id yields the whole log.
    let all = WalReader::new(bytes).read_since_checkpoint(99).unwrap();
    assert_eq!(all.len(), 3);
}

#[test]
fn wal_flush_policy_every_hundred_ops() {
    let mut wal = WalState::new();
    for i in 0..99u64 {
        let due = wal.append(&Operation::checkpoint(i, i)).unwrap();
        assert!(!due);
    }
    let due = wal.append(&Operation::checkpoint(100, 100)).unwrap();
    assert!(due);
}

#[test]
fn wal_truncate_resets_state() {
    let mut wal = WalState::new();
    wal.append(&Operation::checkpoint(1, 1)).unwrap();
    wal.truncate();
    let bytes = wal.take_buffered();
    assert!(bytes.is_empty());
}

#[test]
fn wal_entry_frame_layout() {
    let op = Operation::checkpoint(9, 9);
    let entry = WalEntry::new(&op).unwrap();
    let mut out = Vec::new();
    entry.write_to(&mut out);
    // [length:4][crc32:4][payload]
    let len = u32::from_le_bytes([out[0], out[1], out[2], out[3]]) as usize;
    assert_eq!(out.len(), 8 + len);
    assert_eq!(&out[8..], &entry.data[..]);
    let back = entry.to_operation().unwrap();
    assert!(matches!(back, Operation::Checkpoint { snapshot_id: 9, timestamp: 9 }));
}
