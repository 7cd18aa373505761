use vecta::messages::{format_message, replay_message, restore_message, wal_message};
use vecta::persist::RestoreError;
use vecta::serialize::{decode_flat_index, read_header, FormatError, Section};
use vecta::wal::{ReplayError, WalError};

#[test]
fn header_errors_read_as_before() {
    assert_eq!(format_message(FormatError::BadMagic), "not a valid vecta index file");
    assert_eq!(format_message(FormatError::ZeroDimension), "invalid serialized index dimension 0");
    let mut bytes: Vec<u8> = b"VCTA".to_vec();
    bytes.extend_from_slice(&999u32.to_le_bytes());
    bytes.extend_from_slice(&[0u8, 0u8]);
    bytes.extend_from_slice(&4u32.to_le_bytes());
    bytes.extend_from_slice(&0u64.to_le_bytes());
    let e = read_header(&bytes, 0).unwrap_err();
    assert_eq!(format_message(e), "unsupported format version 999: current supported version is 1");
    assert_eq!(
        format_message(FormatError::WrongIndexType { found: 1, expected: 0 }),
        "file contains a different index type (1), expected FlatIndex (0)"
    );
    assert_eq!(
        format_message(FormatError::WrongIndexType { found: 1, expected: 3 }),
        "file contains a different index type (1), expected IVFPQIndex (3)"
    );
}

#[test]
fn truncated_files_say_so() {
    assert!(format_message(FormatError::Truncated(Section::Ids))
        .starts_with("failed to read IDs (corrupted/truncated file)"));
    let mut bytes: Vec<u8> = b"VCTA".to_vec();
    bytes.extend_from_slice(&1u32.to_le_bytes());
    bytes.extend_from_slice(&[0u8, 0u8]);
    bytes.extend_from_slice(&4u32.to_le_bytes());
    bytes.extend_from_slice(&10u64.to_le_bytes());
    bytes.extend_from_slice(&1u64.to_le_bytes());
    bytes.extend_from_slice(&2u64.to_le_bytes());
    let e = decode_flat_index(&bytes).err().unwrap();
    assert!(format_message(e).contains("corrupted/truncated file"));
    assert_eq!(
        format_message(FormatError::Truncated(Section::NeighborCount(3, 1))),
        "failed to read neighbor count (node 3, layer 1): failed to fill whole buffer"
    );
}

#[test]
fn other_file_errors_name_their_values() {
    assert_eq!(format_message(FormatError::NegativeEntryPoint(-5)), "invalid negative entry point index: -5");
    assert_eq!(
        format_message(FormatError::NegativeEntryPoint(i64::MIN)),
        "invalid negative entry point index: -9223372036854775808"
    );
    assert_eq!(
        format_message(FormatError::NodeCountMismatch { header: 3, nodes: 4 }),
        "mismatch between header vector count (3) and node count (4)"
    );
    assert_eq!(
        format_message(FormatError::PqCentroidCount(300)),
        "invalid PQ config: k_per_subvector 300 must be in 1..=256"
    );
}

#[test]
fn log_errors_read_as_before() {
    assert_eq!(wal_message(WalError::ZeroLengthPayload), "corrupted WAL entry: zero-length payload");
    assert_eq!(
        wal_message(WalError::ShortInsertPayload(5)),
        "corrupted WAL insert entry: payload length 5 < 13 bytes"
    );
    assert_eq!(wal_message(WalError::UnknownOp(7)), "unknown WAL op type: 7");
    assert_eq!(
        replay_message(ReplayError::DimensionMismatch { got: 2, expected: 3 }),
        "WAL replay error: vector dim 2 does not match index dim 3"
    );
    assert_eq!(
        replay_message(ReplayError::DuplicateId(9)),
        "WAL replay error: duplicate id 9 already in index"
    );
    assert_eq!(restore_message(RestoreError::UnknownType(9)), "unknown index type 9");
}
