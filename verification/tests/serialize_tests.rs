use vecta::batch::VectorBatch;
use vecta::flat_index::FlatIndex;
use vecta::metric::Metric;
use vecta::serialize::{
    decode_flat_index, encode_flat_index, magic_bytes, peek_index_type, read_floats, read_header, read_ids,
    write_floats, write_header, write_ids, FormatError, HeaderMetadata, Section, FORMAT_VERSION, HEADER_LEN,
    INDEX_TYPE_FLAT, INDEX_TYPE_HNSW,
};

fn bits(v: &[f32]) -> Vec<u32> {
    v.iter().map(|x| x.to_bits()).collect()
}

fn sample_flat() -> FlatIndex {
    let mut index = FlatIndex::new(3, Metric::Cosine);
    index.add(10, &bits(&[1.0, 2.0, 3.0]));
    index.add(20, &bits(&[-4.0, 0.5, 6.25]));
    index
}

#[test]
fn header_layout_is_little_endian() {
    let mut out = Vec::new();
    write_header(&mut out, INDEX_TYPE_HNSW, Metric::DotProduct, 0x0102, 0x0304);
    assert_eq!(out.len(), HEADER_LEN);
    assert_eq!(&out[0..4], b"VCTA");
    assert_eq!(&magic_bytes(), b"VCTA");
    assert_eq!(&out[4..8], &FORMAT_VERSION.to_le_bytes());
    assert_eq!(out[8], 2);
    assert_eq!(out[9], 2);
    assert_eq!(&out[10..14], &[2, 1, 0, 0]);
    assert_eq!(&out[14..22], &[4, 3, 0, 0, 0, 0, 0, 0]);
    assert_eq!(
        read_header(&out, INDEX_TYPE_HNSW),
        Ok(HeaderMetadata { index_type: 2, metric: Metric::DotProduct, dim: 0x0102, num_vectors: 0x0304 })
    );
}

#[test]
fn header_errors_come_in_order() {
    let mut out = Vec::new();
    write_header(&mut out, INDEX_TYPE_FLAT, Metric::Euclidean, 4, 1);
    assert_eq!(read_header(&out[..3], 0), Err(FormatError::Truncated(Section::MagicBytes)));
    let mut bad = out.clone();
    bad[0] = b'X';
    assert_eq!(read_header(&bad, 0), Err(FormatError::BadMagic));
    let mut v2 = out.clone();
    v2[4] = 2;
    assert_eq!(read_header(&v2, 0), Err(FormatError::UnsupportedVersion(2)));
    assert_eq!(read_header(&out, 1), Err(FormatError::WrongIndexType { found: 0, expected: 1 }));
    let mut metric = out.clone();
    metric[9] = 9;
    assert_eq!(read_header(&metric, 0), Err(FormatError::UnknownMetric(9)));
    let mut zero = out.clone();
    zero[10] = 0;
    assert_eq!(read_header(&zero, 0), Err(FormatError::ZeroDimension));
    assert_eq!(read_header(&out[..21], 0), Err(FormatError::Truncated(Section::VectorCount)));
}

#[test]
fn flat_round_trip_hand_crafted() {
    let index = sample_flat();
    let bytes = encode_flat_index(&index);
    assert_eq!(bytes.len(), 22 + 2 * 8 + 6 * 4);
    let back = decode_flat_index(&bytes).unwrap();
    assert_eq!(back.ids, index.ids);
    assert_eq!(back.batch.data, index.batch.data);
    assert_eq!(back.dim(), 3);
    assert_eq!(back.metric, Metric::Cosine);
    assert_eq!(back.get_vector(20), Some(bits(&[-4.0, 0.5, 6.25]).as_slice()));
}

#[test]
fn flat_decoding_errors() {
    let bytes = encode_flat_index(&sample_flat());
    assert_eq!(decode_flat_index(&bytes[..30]).err(), Some(FormatError::Truncated(Section::Ids)));
    assert_eq!(decode_flat_index(&bytes[..bytes.len() - 1]).err(), Some(FormatError::Truncated(Section::VectorData)));
    let mut dup = bytes.clone();
    dup[30..38].copy_from_slice(&10u64.to_le_bytes());
    assert_eq!(decode_flat_index(&dup).err(), Some(FormatError::DuplicateId(10)));
    assert_eq!(decode_flat_index(b"NOPE").err(), Some(FormatError::BadMagic));
}

#[test]
fn peek_reads_only_the_type() {
    let bytes = encode_flat_index(&sample_flat());
    assert_eq!(peek_index_type(&bytes[..9]), Ok(0));
    assert_eq!(peek_index_type(&bytes[..8]), Err(FormatError::Truncated(Section::IndexType)));
    assert_eq!(peek_index_type(b"VCT"), Err(FormatError::Truncated(Section::MagicBytes)));
}

#[test]
fn ids_and_floats_round_trip() {
    let mut out = Vec::new();
    write_ids(&mut out, &[1, u64::MAX, 42]);
    write_floats(&mut out, &bits(&[1.5, -0.0]));
    assert_eq!(read_ids(&out, 0, 3), Ok(vec![1, u64::MAX, 42]));
    assert_eq!(read_floats(&out, 24, 2), Ok(bits(&[1.5, -0.0])));
    assert_eq!(read_ids(&out, 0, 5), Err(FormatError::Truncated(Section::Ids)));
    assert_eq!(read_floats(&out, 24, 3), Err(FormatError::Truncated(Section::VectorData)));
    let b = VectorBatch::from_parts(read_floats(&out, 24, 2).unwrap(), 2, 1).unwrap();
    assert_eq!(b.get(0), bits(&[1.5, -0.0]).as_slice());
}

#[test]
fn header_promising_more_ids_than_follow_is_truncated() {
    let mut bytes: Vec<u8> = b"VCTA".to_vec();
    bytes.extend_from_slice(&1u32.to_le_bytes());
    bytes.extend_from_slice(&[0u8, 0u8]);
    bytes.extend_from_slice(&4u32.to_le_bytes());
    bytes.extend_from_slice(&10u64.to_le_bytes());
    bytes.extend_from_slice(&1u64.to_le_bytes());
    bytes.extend_from_slice(&2u64.to_le_bytes());
    assert_eq!(decode_flat_index(&bytes).err(), Some(FormatError::Truncated(Section::Ids)));
}
