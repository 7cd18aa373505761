use vecta::flat_index::FlatIndex;
use vecta::metric::Metric;
use vecta::serialize::encode_flat_index;
use vecta::wal::{encode_insert_entry, recover_flat_index, replay_into, replay_wal_bytes, RecoveryError, ReplayError, WalError, WalOp};

fn bits(v: &[f32]) -> Vec<u32> {
    v.iter().map(|x| x.to_bits()).collect()
}

fn log_of(entries: &[(u64, Vec<f32>)]) -> Vec<u8> {
    let mut out = Vec::new();
    for (id, v) in entries {
        out.extend_from_slice(&encode_insert_entry(*id, &bits(v)).unwrap());
    }
    out
}

#[test]
fn test_wal_append_and_replay_order() {
    let entries = vec![
        (101u64, vec![1.0f32, 2.0, 3.0]),
        (102u64, vec![4.0f32, 5.0, 6.0]),
        (103u64, vec![7.0f32, 8.0, 9.0]),
        (104u64, vec![10.0f32, 11.0, 12.0]),
    ];
    let log = log_of(&entries);
    let ops = replay_wal_bytes(&log).unwrap();
    assert_eq!(ops.len(), entries.len());
    for (i, op) in ops.iter().enumerate() {
        match op {
            WalOp::Insert { id, vector } => {
                assert_eq!(*id, entries[i].0);
                assert_eq!(vector, &bits(&entries[i].1));
            }
        }
    }
}

#[test]
fn entry_layout_matches_the_format() {
    let e = encode_insert_entry(3, &bits(&[1.0, 2.0, 3.0])).unwrap();
    assert_eq!(e.len(), 4 + 25);
    assert_eq!(&e[0..4], &25u32.to_le_bytes());
    assert_eq!(e[4], 0);
    assert_eq!(&e[5..13], &3u64.to_le_bytes());
    assert_eq!(&e[13..17], &3u32.to_le_bytes());
    assert_eq!(&e[17..21], &1.0f32.to_le_bytes());
}

#[test]
fn test_wal_truncated_trailing_entry_dropped_gracefully() {
    let mut log = log_of(&[(1, vec![1.0, 2.0, 3.0]), (2, vec![4.0, 5.0, 6.0])]);
    let valid = log.clone();

    log.extend_from_slice(&[0x19, 0x00]);
    let ops_a = replay_wal_bytes(&log).unwrap();
    assert_eq!(ops_a.len(), 2, "Replay must gracefully discard incomplete entry_len prefix");
    assert_eq!(ops_a[0], WalOp::Insert { id: 1, vector: bits(&[1.0, 2.0, 3.0]) });
    assert_eq!(ops_a[1], WalOp::Insert { id: 2, vector: bits(&[4.0, 5.0, 6.0]) });

    let mut log_b = valid.clone();
    let payload_len: u32 = 1 + 8 + 4 + (3 * 4);
    log_b.extend_from_slice(&payload_len.to_le_bytes());
    log_b.push(0u8);
    log_b.extend_from_slice(&3u64.to_le_bytes());
    let ops_b = replay_wal_bytes(&log_b).unwrap();
    assert_eq!(ops_b.len(), 2, "Replay must gracefully discard truncated trailing payload without panic/error");
    assert_eq!(ops_b[0], WalOp::Insert { id: 1, vector: bits(&[1.0, 2.0, 3.0]) });
    assert_eq!(ops_b[1], WalOp::Insert { id: 2, vector: bits(&[4.0, 5.0, 6.0]) });
}

#[test]
fn corrupted_entries_are_errors() {
    let mut zero = Vec::new();
    zero.extend_from_slice(&0u32.to_le_bytes());
    assert_eq!(replay_wal_bytes(&zero).err(), Some(WalError::ZeroLengthPayload));
    let mut unknown = Vec::new();
    unknown.extend_from_slice(&1u32.to_le_bytes());
    unknown.push(7);
    assert_eq!(replay_wal_bytes(&unknown).err(), Some(WalError::UnknownOp(7)));
    let mut short = Vec::new();
    short.extend_from_slice(&3u32.to_le_bytes());
    short.extend_from_slice(&[0, 1, 2]);
    assert_eq!(replay_wal_bytes(&short).err(), Some(WalError::ShortInsertPayload(3)));
    assert_eq!(replay_wal_bytes(&[]).unwrap(), vec![]);
}

#[test]
fn test_wal_crash_recovery_simulation() {
    let mut base = FlatIndex::new(2, Metric::Euclidean);
    base.add(1, &bits(&[1.0, 1.0]));
    base.add(2, &bits(&[2.0, 2.0]));
    let snapshot = encode_flat_index(&base);
    let log = log_of(&[(3, vec![3.0, 3.0]), (4, vec![4.0, 4.0])]);
    let recovered = recover_flat_index(&snapshot, &log).unwrap();
    assert_eq!(recovered.ids, vec![1, 2, 3, 4]);
    assert_eq!(recovered.get_vector(4), Some(bits(&[4.0, 4.0]).as_slice()));

    let dup = log_of(&[(2, vec![9.0, 9.0])]);
    assert_eq!(recover_flat_index(&snapshot, &dup).err(), Some(RecoveryError::Replay(ReplayError::DuplicateId(2))));
    let wrong = log_of(&[(9, vec![9.0])]);
    assert_eq!(
        recover_flat_index(&snapshot, &wrong).err(),
        Some(RecoveryError::Replay(ReplayError::DimensionMismatch { got: 1, expected: 2 }))
    );
}

#[test]
fn replay_into_applies_in_order() {
    let mut index = FlatIndex::new(1, Metric::Cosine);
    let ops = vec![WalOp::Insert { id: 5, vector: bits(&[1.0]) }, WalOp::Insert { id: 6, vector: bits(&[2.0]) }];
    assert_eq!(replay_into(&mut index, &ops), Ok(()));
    assert_eq!(index.ids, vec![5, 6]);
}
