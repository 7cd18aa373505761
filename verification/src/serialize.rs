//! Binary on-disk format of the four index families.
//!
//! Every file starts with the same 22-byte header, all integers little-endian:
//!
//! ```text
//! magic_bytes:    [u8; 4] = b"VCTA"
//! format_version: u32      (current = 1)
//! index_type:     u8       (0 = flat, 1 = IVF, 2 = HNSW, 3 = IVF-PQ)
//! metric:         u8       (0 = Euclidean, 1 = Cosine, 2 = DotProduct)
//! dim:            u32
//! num_vectors:    u64
//! ```
//!
//! Vector coordinates are written as the little-endian bytes of their `f32`
//! bit patterns. Decoders read from a byte slice and ignore trailing bytes.

use vstd::prelude::*;
use vstd::bytes::{spec_u32_from_le_bytes, spec_u64_from_le_bytes};
use crate::codec::{is_prefix, le32, le64, le64s, le32s, lemma_le_facts, lemma_le64s_len, lemma_le32s_len, lemma_prefix_concat, lemma_le64s_injective, lemma_le32s_injective, read_u8, read_u32, read_u64, read_u64s, read_u32s, write_u8, write_u32, write_u64, write_u64s, write_u32s};
use crate::metric::{Metric, spec_metric_code, metric_to_code, code_to_metric};
use crate::batch::VectorBatch;
use crate::flat_index::{FlatIndex, FlatIndexView, first_repeat};

verus! {

/// Format version written into, and accepted from, every file.
pub const FORMAT_VERSION: u32 = 1;
/// Index type code of a flat index.
pub const INDEX_TYPE_FLAT: u8 = 0;
/// Index type code of an IVF index.
pub const INDEX_TYPE_IVF: u8 = 1;
/// Index type code of an HNSW graph.
pub const INDEX_TYPE_HNSW: u8 = 2;
/// Index type code of an IVF-PQ index.
pub const INDEX_TYPE_IVF_PQ: u8 = 3;
/// Length of the common header in bytes.
pub const HEADER_LEN: usize = 22;

/// The magic bytes `b"VCTA"` that open every file.
pub open spec fn magic_seq() -> Seq<u8> {
    seq![86u8, 67u8, 84u8, 65u8]
}

/// The magic bytes `b"VCTA"`.
pub fn magic_bytes() -> (m: [u8; 4])
    ensures
        m@ == magic_seq(),
{
    let m: [u8; 4] = [86u8, 67u8, 84u8, 65u8];
    assert(m@ =~= magic_seq());
    m
}

/// The part of a file that a read was attempting when the input ended.
#[derive(Debug, Clone, Copy, PartialEq, Eq, Structural)]
pub enum Section {
    MagicBytes,
    FormatVersion,
    IndexType,
    MetricCode,
    Dimension,
    VectorCount,
    Ids,
    VectorData,
    NumClusters,
    ClusterCount,
    TrainedFlag,
    HnswConfig,
    EntryPoint,
    NodeCount,
    NodeId(usize),
    MaxLayer(usize),
    NeighborCount(usize, usize),
    NeighborIndices(usize, usize),
    PqConfig,
    ClusterVectorCount(usize),
    InvertedList(usize),
}

/// Why a byte string is not a valid index file.
#[derive(Debug, Clone, Copy, PartialEq, Eq, Structural)]
pub enum FormatError {
    /// The input ended inside the given section.
    Truncated(Section),
    /// The file does not start with `b"VCTA"`.
    BadMagic,
    /// The format version is not [`FORMAT_VERSION`].
    UnsupportedVersion(u32),
    /// The file holds another index family.
    WrongIndexType { found: u8, expected: u8 },
    /// The metric byte is not a known code.
    UnknownMetric(u8),
    /// The header gives dimension 0.
    ZeroDimension,
    /// A count read as `u64` does not fit in `usize` on this machine.
    CountTooLarge(u64),
    /// `num_vectors * dim` does not fit in `usize`.
    FloatCountOverflow,
    /// `num_clusters * dim` does not fit in `usize`.
    CentroidCountOverflow,
    /// A cluster's `count * dim` does not fit in `usize`.
    ClusterFloatOverflow,
    /// `m * k_per_subvector * sub_dim` does not fit in `usize`.
    CodebookCountOverflow,
    /// The header's vector count differs from the sum of the cluster counts.
    ClusterTotalMismatch { header: usize, clusters: u64 },
    /// The header's vector count differs from the node count.
    NodeCountMismatch { header: usize, nodes: u64 },
    /// The entry point is negative and not `-1`.
    NegativeEntryPoint(i64),
    /// The entry point is not a node index.
    EntryPointOutOfBounds { entry: u64, nodes: usize },
    /// A neighbor index is not a node index.
    NeighborOutOfBounds { neighbor: u32, nodes: usize },
    /// The dimension is not a positive multiple of the PQ subvector count.
    PqNotDivisible { dim: usize, m: usize },
    /// The PQ centroid count per subvector is not in `1..=256`.
    PqCentroidCount(usize),
    /// An ID occurs twice in one list of IDs.
    DuplicateId(u64),
}

/// Parsed fields of the standard header.
#[derive(Debug, Clone, Copy, PartialEq, Eq, Structural)]
pub struct HeaderMetadata {
    pub index_type: u8,
    pub metric: Metric,
    pub dim: usize,
    pub num_vectors: usize,
}

/// The metric of a known code.
pub open spec fn metric_of_code(code: u8) -> Metric {
    if code == 0 {
        Metric::Euclidean
    } else if code == 1 {
        Metric::Cosine
    } else {
        Metric::DotProduct
    }
}

/// The 22 header bytes.
pub open spec fn header_bytes(index_type: u8, metric: Metric, dim: nat, num_vectors: nat) -> Seq<u8> {
    magic_seq() + le32(FORMAT_VERSION) + seq![index_type, spec_metric_code(metric)] + le32(
        dim as u32,
    ) + le64(num_vectors as u64)
}

/// How the standard header of `b` is validated, in order: magic bytes,
/// version, index type, metric code, dimension, vector count.
pub open spec fn header_check(b: Seq<u8>, expected: u8) -> Result<HeaderMetadata, FormatError> {
    if b.len() < 4 {
        Err(FormatError::Truncated(Section::MagicBytes))
    } else if b.subrange(0, 4) != magic_seq() {
        Err(FormatError::BadMagic)
    } else if b.len() < 8 {
        Err(FormatError::Truncated(Section::FormatVersion))
    } else if spec_u32_from_le_bytes(b.subrange(4, 8)) != FORMAT_VERSION {
        Err(FormatError::UnsupportedVersion(spec_u32_from_le_bytes(b.subrange(4, 8))))
    } else if b.len() < 9 {
        Err(FormatError::Truncated(Section::IndexType))
    } else if b[8] != expected {
        Err(FormatError::WrongIndexType { found: b[8], expected })
    } else if b.len() < 10 {
        Err(FormatError::Truncated(Section::MetricCode))
    } else if b[9] > 2 {
        Err(FormatError::UnknownMetric(b[9]))
    } else if b.len() < 14 {
        Err(FormatError::Truncated(Section::Dimension))
    } else if spec_u32_from_le_bytes(b.subrange(10, 14)) == 0 {
        Err(FormatError::ZeroDimension)
    } else if b.len() < 22 {
        Err(FormatError::Truncated(Section::VectorCount))
    } else if spec_u64_from_le_bytes(b.subrange(14, 22)) > usize::MAX {
        Err(FormatError::CountTooLarge(spec_u64_from_le_bytes(b.subrange(14, 22))))
    } else {
        Ok(
            HeaderMetadata {
                index_type: b[8],
                metric: metric_of_code(b[9]),
                dim: spec_u32_from_le_bytes(b.subrange(10, 14)) as usize,
                num_vectors: spec_u64_from_le_bytes(b.subrange(14, 22)) as usize,
            },
        )
    }
}

/// A header that passes the checks is, byte for byte, the header of its fields.
pub proof fn lemma_header_check_ok(b: Seq<u8>, expected: u8)
    requires
        header_check(b, expected) is Ok,
    ensures
        ({
            let h = header_check(b, expected)->Ok_0;
            &&& h.index_type == expected
            &&& h.dim > 0
            &&& h.dim <= u32::MAX
            &&& is_prefix(header_bytes(expected, h.metric, h.dim as nat, h.num_vectors as nat), b)
        }),
{
    lemma_le_facts();
    let h = header_check(b, expected)->Ok_0;
    let d = spec_u32_from_le_bytes(b.subrange(10, 14));
    let n = spec_u64_from_le_bytes(b.subrange(14, 22));
    assert(le32(d) == b.subrange(10, 14));
    assert(le32(spec_u32_from_le_bytes(b.subrange(4, 8))) == b.subrange(4, 8));
    assert(le64(n) == b.subrange(14, 22));
    assert(spec_metric_code(h.metric) == b[9]);
    let hb = header_bytes(expected, h.metric, h.dim as nat, h.num_vectors as nat);
    assert(hb =~= b.subrange(0, 22));
}

/// The header of given fields passes the checks and gives those fields back.
pub proof fn lemma_header_round_trip(b: Seq<u8>, t: u8, metric: Metric, dim: nat, n: nat)
    requires
        is_prefix(header_bytes(t, metric, dim, n), b),
        0 < dim <= u32::MAX,
        n <= usize::MAX,
    ensures
        header_check(b, t) == Ok::<HeaderMetadata, FormatError>(
            (HeaderMetadata { index_type: t, metric, dim: dim as usize, num_vectors: n as usize }),
        ),
{
    lemma_le_facts();
    let hb = header_bytes(t, metric, dim, n);
    assert(hb.len() == 22);
    assert(b.subrange(0, 4) =~= hb.subrange(0, 4));
    assert(hb.subrange(0, 4) =~= magic_seq());
    assert(b.subrange(4, 8) =~= hb.subrange(4, 8));
    assert(hb.subrange(4, 8) =~= le32(FORMAT_VERSION));
    assert(b.subrange(10, 14) =~= hb.subrange(10, 14));
    assert(hb.subrange(10, 14) =~= le32(dim as u32));
    assert(b.subrange(14, 22) =~= hb.subrange(14, 22));
    assert(hb.subrange(14, 22) =~= le64(n as u64));
    assert(b[8] == hb[8]);
    assert(b[9] == hb[9]);
    assert(spec_u32_from_le_bytes(le32(dim as u32)) == dim as u32);
    assert(spec_u64_from_le_bytes(le64(n as u64)) == n as u64);
}

/// Write the standard 22-byte header.
pub fn write_header(out: &mut Vec<u8>, index_type: u8, metric: Metric, dim: usize, num_vectors: usize)
    ensures
        final(out)@ == old(out)@ + header_bytes(index_type, metric, dim as nat, num_vectors as nat),
{
    let m = magic_bytes();
    write_u8(out, m[0]);
    write_u8(out, m[1]);
    write_u8(out, m[2]);
    write_u8(out, m[3]);
    write_u32(out, FORMAT_VERSION);
    write_u8(out, index_type);
    write_u8(out, metric_to_code(metric));
    write_u32(out, dim as u32);
    write_u64(out, num_vectors as u64);
    proof {
        lemma_le_facts();
        assert(final(out)@ =~= old(out)@ + header_bytes(index_type, metric, dim as nat, num_vectors as nat));
    }
}

/// Read and validate the standard header at the start of `bytes`.
pub fn read_header(bytes: &[u8], expected_index_type: u8) -> (res: Result<HeaderMetadata, FormatError>)
    ensures
        res == header_check(bytes@, expected_index_type),
{
    proof {
        lemma_le_facts();
    }
    if bytes.len() < 4 {
        return Err(FormatError::Truncated(Section::MagicBytes));
    }
    let m = magic_bytes();
    if bytes[0] != m[0] || bytes[1] != m[1] || bytes[2] != m[2] || bytes[3] != m[3] {
        proof {
            if bytes@.subrange(0, 4) == magic_seq() {
                assert(bytes@[0] == bytes@.subrange(0, 4)[0]);
                assert(bytes@[1] == bytes@.subrange(0, 4)[1]);
                assert(bytes@[2] == bytes@.subrange(0, 4)[2]);
                assert(bytes@[3] == bytes@.subrange(0, 4)[3]);
            }
        }
        return Err(FormatError::BadMagic);
    }
    assert(bytes@.subrange(0, 4) =~= magic_seq());
    let version = match read_u32(bytes, 4) {
        Some(v) => v,
        None => return Err(FormatError::Truncated(Section::FormatVersion)),
    };
    assert(spec_u32_from_le_bytes(bytes@.subrange(4, 8)) == version);
    if version != FORMAT_VERSION {
        return Err(FormatError::UnsupportedVersion(version));
    }
    let index_type = match read_u8(bytes, 8) {
        Some(t) => t,
        None => return Err(FormatError::Truncated(Section::IndexType)),
    };
    if index_type != expected_index_type {
        return Err(FormatError::WrongIndexType { found: index_type, expected: expected_index_type });
    }
    let code = match read_u8(bytes, 9) {
        Some(c) => c,
        None => return Err(FormatError::Truncated(Section::MetricCode)),
    };
    let metric = match code_to_metric(code) {
        Ok(m) => m,
        Err(_) => return Err(FormatError::UnknownMetric(code)),
    };
    let dim = match read_u32(bytes, 10) {
        Some(d) => d,
        None => return Err(FormatError::Truncated(Section::Dimension)),
    };
    assert(spec_u32_from_le_bytes(bytes@.subrange(10, 14)) == dim);
    if dim == 0 {
        return Err(FormatError::ZeroDimension);
    }
    let count = match read_u64(bytes, 14) {
        Some(c) => c,
        None => return Err(FormatError::Truncated(Section::VectorCount)),
    };
    assert(spec_u64_from_le_bytes(bytes@.subrange(14, 22)) == count);
    if count as u128 > usize::MAX as u128 {
        return Err(FormatError::CountTooLarge(count));
    }
    Ok(HeaderMetadata { index_type, metric, dim: dim as usize, num_vectors: count as usize })
}

/// Append IDs as contiguous little-endian `u64`s.
pub fn write_ids(out: &mut Vec<u8>, ids: &[u64])
    ensures
        final(out)@ == old(out)@ + le64s(ids@),
{
    write_u64s(out, ids);
}

/// Read `count` little-endian `u64` IDs at `pos`.
pub fn read_ids(bytes: &[u8], pos: usize, count: usize) -> (res: Result<Vec<u64>, FormatError>)
    ensures
        res is Ok <==> pos + 8 * count <= bytes@.len(),
        res is Err ==> res == Err::<Vec<u64>, FormatError>(FormatError::Truncated(Section::Ids)),
        res matches Ok(ids) ==> ids@.len() == count && bytes@.subrange(pos as int, pos + 8 * count)
            == le64s(ids@),
{
    match read_u64s(bytes, pos, count) {
        Some(ids) => Ok(ids),
        None => Err(FormatError::Truncated(Section::Ids)),
    }
}

/// Append coordinates (`f32` bit patterns) as contiguous little-endian words.
pub fn write_floats(out: &mut Vec<u8>, data: &[u32])
    ensures
        final(out)@ == old(out)@ + le32s(data@),
{
    write_u32s(out, data);
}

/// Read `total` little-endian coordinates at `pos`.
pub fn read_floats(bytes: &[u8], pos: usize, total: usize) -> (res: Result<Vec<u32>, FormatError>)
    ensures
        res is Ok <==> pos + 4 * total <= bytes@.len(),
        res is Err ==> res == Err::<Vec<u32>, FormatError>(FormatError::Truncated(Section::VectorData)),
        res matches Ok(data) ==> data@.len() == total && bytes@.subrange(pos as int, pos + 4 * total)
            == le32s(data@),
{
    match read_u32s(bytes, pos, total) {
        Some(data) => Ok(data),
        None => Err(FormatError::Truncated(Section::VectorData)),
    }
}

/// The index type code of a file, after checking its magic bytes and
/// format version; nothing after the type byte is looked at.
pub open spec fn index_type_of(b: Seq<u8>) -> Result<u8, FormatError> {
    if b.len() < 4 {
        Err(FormatError::Truncated(Section::MagicBytes))
    } else if b.subrange(0, 4) != magic_seq() {
        Err(FormatError::BadMagic)
    } else if b.len() < 8 {
        Err(FormatError::Truncated(Section::FormatVersion))
    } else if spec_u32_from_le_bytes(b.subrange(4, 8)) != FORMAT_VERSION {
        Err(FormatError::UnsupportedVersion(spec_u32_from_le_bytes(b.subrange(4, 8))))
    } else if b.len() < 9 {
        Err(FormatError::Truncated(Section::IndexType))
    } else {
        Ok(b[8])
    }
}

/// Bytes that begin with a header of type `t` are of type `t`.
pub proof fn lemma_header_prefix_type(t: u8, metric: Metric, dim: nat, n: nat, s: Seq<u8>)
    requires
        is_prefix(header_bytes(t, metric, dim, n), s),
    ensures
        index_type_of(s) == Ok::<u8, FormatError>(t),
{
    lemma_le_facts();
    let h = header_bytes(t, metric, dim, n);
    assert(h.len() == 22);
    assert(s.subrange(0, 22) == h);
    assert(s.subrange(0, 4) =~= h.subrange(0, 4));
    assert(h.subrange(0, 4) =~= magic_seq());
    assert(s.subrange(4, 8) =~= h.subrange(4, 8));
    assert(h.subrange(4, 8) =~= le32(FORMAT_VERSION));
    assert(s[8] == h[8]);
}

/// The index type code of a file, after checking its magic bytes and
/// format version; nothing after the type byte is read.
pub fn peek_index_type(bytes: &[u8]) -> (res: Result<u8, FormatError>)
    ensures
        res == index_type_of(bytes@),
{
    proof {
        lemma_le_facts();
    }
    if bytes.len() < 4 {
        return Err(FormatError::Truncated(Section::MagicBytes));
    }
    let m = magic_bytes();
    if bytes[0] != m[0] || bytes[1] != m[1] || bytes[2] != m[2] || bytes[3] != m[3] {
        proof {
            if bytes@.subrange(0, 4) == magic_seq() {
                assert(bytes@[0] == bytes@.subrange(0, 4)[0]);
                assert(bytes@[1] == bytes@.subrange(0, 4)[1]);
                assert(bytes@[2] == bytes@.subrange(0, 4)[2]);
                assert(bytes@[3] == bytes@.subrange(0, 4)[3]);
            }
        }
        return Err(FormatError::BadMagic);
    }
    assert(bytes@.subrange(0, 4) =~= magic_seq());
    let version = match read_u32(bytes, 4) {
        Some(v) => v,
        None => return Err(FormatError::Truncated(Section::FormatVersion)),
    };
    assert(spec_u32_from_le_bytes(bytes@.subrange(4, 8)) == version);
    if version != FORMAT_VERSION {
        return Err(FormatError::UnsupportedVersion(version));
    }
    match read_u8(bytes, 8) {
        Some(t) => Ok(t),
        None => Err(FormatError::Truncated(Section::IndexType)),
    }
}

/// The bytes of a flat index: header, IDs, then coordinates.
pub open spec fn flat_bytes(v: FlatIndexView) -> Seq<u8> {
    header_bytes(INDEX_TYPE_FLAT, v.metric, v.dim, v.num_vectors) + le64s(v.ids) + le32s(v.data)
}

/// A flat index that the format can hold and give back unchanged.
pub open spec fn flat_encodable(v: FlatIndexView) -> bool {
    &&& v.wf()
    &&& 0 < v.dim <= u32::MAX
    &&& v.num_vectors <= usize::MAX
}

/// Serialize a flat index.
pub fn encode_flat_index(index: &FlatIndex) -> (out: Vec<u8>)
    requires
        index.wf(),
    ensures
        out@ == flat_bytes(index@),
{
    let mut out: Vec<u8> = Vec::new();
    write_header(&mut out, INDEX_TYPE_FLAT, index.metric, index.dim(), index.len());
    write_u64s(&mut out, index.ids.as_slice());
    write_u32s(&mut out, index.batch.data.as_slice());
    proof {
        assert(out@ =~= flat_bytes(index@));
    }
    out
}

/// Deserialize a flat index from the start of `bytes`.
///
/// Succeeds exactly when `bytes` starts with the encoding of a flat index the
/// format can hold, and then gives that index back.
pub fn decode_flat_index(bytes: &[u8]) -> (res: Result<FlatIndex, FormatError>)
    ensures
        header_check(bytes@, INDEX_TYPE_FLAT) is Err ==> res == Err::<FlatIndex, FormatError>(
            header_check(bytes@, INDEX_TYPE_FLAT)->Err_0,
        ),
        res matches Ok(index) ==> index.wf() && flat_encodable(index@) && is_prefix(
            flat_bytes(index@),
            bytes@,
        ),
        forall|v: FlatIndexView|
            flat_encodable(v) && is_prefix(#[trigger] flat_bytes(v), bytes@) ==> (res matches Ok(index)
                && index@ == v),
        header_check(bytes@, INDEX_TYPE_FLAT) matches Ok(h) ==> {
            let ids_end = HEADER_LEN + 8 * h.num_vectors;
            let floats = h.num_vectors * h.dim;
            &&& bytes@.len() < ids_end ==> res == Err::<FlatIndex, FormatError>(FormatError::Truncated(Section::Ids))
            &&& bytes@.len() >= ids_end && floats > usize::MAX ==> res == Err::<FlatIndex, FormatError>(
                FormatError::FloatCountOverflow,
            )
            &&& bytes@.len() >= ids_end && floats <= usize::MAX && bytes@.len() < ids_end + 4 * floats ==> res
                == Err::<FlatIndex, FormatError>(FormatError::Truncated(Section::VectorData))
            &&& bytes@.len() >= ids_end + 4 * floats && floats <= usize::MAX ==> (res is Ok || res matches Err(
                FormatError::DuplicateId(_),
            ))
        },
{
    let blen = bytes.len();
    let header = match read_header(bytes, INDEX_TYPE_FLAT) {
        Ok(h) => h,
        Err(e) => {
            proof {
                assert forall|v: FlatIndexView|
                    flat_encodable(v) && is_prefix(#[trigger] flat_bytes(v), bytes@) implies false by {
                    lemma_flat_prefix_parts(v, bytes@);
                    lemma_header_round_trip(bytes@, INDEX_TYPE_FLAT, v.metric, v.dim, v.num_vectors);
                }
            }
            return Err(e);
        },
    };
    proof {
        lemma_header_check_ok(bytes@, INDEX_TYPE_FLAT);
    }
    let n = header.num_vectors;
    let dim = header.dim;
    let ids = match read_u64s(bytes, HEADER_LEN, n) {
        Some(v) => v,
        None => {
            proof {
                assert forall|v: FlatIndexView|
                    flat_encodable(v) && is_prefix(#[trigger] flat_bytes(v), bytes@) implies false by {
                    lemma_flat_prefix_parts(v, bytes@);
                    lemma_header_round_trip(bytes@, INDEX_TYPE_FLAT, v.metric, v.dim, v.num_vectors);
                }
            }
            return Err(FormatError::Truncated(Section::Ids));
        },
    };
    let total = match n.checked_mul(dim) {
        Some(t) => t,
        None => {
            proof {
                assert forall|v: FlatIndexView|
                    flat_encodable(v) && is_prefix(#[trigger] flat_bytes(v), bytes@) implies false by {
                    lemma_flat_prefix_parts(v, bytes@);
                    lemma_header_round_trip(bytes@, INDEX_TYPE_FLAT, v.metric, v.dim, v.num_vectors);
                    assert(v.data.len() == v.dim * v.num_vectors);
                    assert(v.dim * v.num_vectors == v.num_vectors * v.dim) by (nonlinear_arith);
                }
            }
            return Err(FormatError::FloatCountOverflow);
        },
    };
    let pos = HEADER_LEN + 8 * n;
    let data = match read_u32s(bytes, pos, total) {
        Some(d) => d,
        None => {
            proof {
                assert forall|v: FlatIndexView|
                    flat_encodable(v) && is_prefix(#[trigger] flat_bytes(v), bytes@) implies false by {
                    lemma_flat_prefix_parts(v, bytes@);
                    lemma_header_round_trip(bytes@, INDEX_TYPE_FLAT, v.metric, v.dim, v.num_vectors);
                    assert(v.dim * v.num_vectors == v.num_vectors * v.dim) by (nonlinear_arith);
                }
            }
            return Err(FormatError::Truncated(Section::VectorData));
        },
    };
    proof {
        assert(dim * n == n * dim) by (nonlinear_arith);
        assert(is_prefix(flat_bytes(FlatIndexView { ids: ids@, data: data@, dim: dim as nat, num_vectors: n as nat, metric: header.metric }), bytes@)) by {
            let hb = header_bytes(INDEX_TYPE_FLAT, header.metric, dim as nat, n as nat);
            lemma_le_facts();
            assert(hb.len() == 22);
            lemma_le64s_len(ids@);
            lemma_le32s_len(data@);
            lemma_prefix_concat(hb, le64s(ids@), bytes@);
            lemma_prefix_concat(hb + le64s(ids@), le32s(data@), bytes@);
        }
        assert forall|v: FlatIndexView|
            flat_encodable(v) && is_prefix(#[trigger] flat_bytes(v), bytes@) implies v.ids == ids@ && v.data == data@ && v.dim == dim && v.num_vectors == n && v.metric == header.metric by {
            lemma_flat_prefix_parts(v, bytes@);
            lemma_header_round_trip(bytes@, INDEX_TYPE_FLAT, v.metric, v.dim, v.num_vectors);
            assert(v.dim * v.num_vectors == v.num_vectors * v.dim) by (nonlinear_arith);
            lemma_le64s_injective(v.ids, ids@);
            lemma_le32s_injective(v.data, data@);
        }
    }
    match first_repeat(ids.as_slice()) {
        Some(i) => {
            let id = ids[i];
            proof {
                assert forall|v: FlatIndexView|
                    flat_encodable(v) && is_prefix(#[trigger] flat_bytes(v), bytes@) implies false by {
                    let j = choose|j: int| 0 <= j < i && ids@[j] == ids@[i as int];
                    assert(v.ids[j] == v.ids[i as int]);
                }
            }
            Err(FormatError::DuplicateId(id))
        },
        None => {
            let batch = VectorBatch { data, dim, num_vectors: n };
            Ok(FlatIndex { batch, ids, metric: header.metric })
        },
    }
}

/// The parts of a flat encoding that is a prefix of `b`.
pub proof fn lemma_flat_prefix_parts(v: FlatIndexView, b: Seq<u8>)
    requires
        flat_encodable(v),
        is_prefix(flat_bytes(v), b),
    ensures
        is_prefix(header_bytes(INDEX_TYPE_FLAT, v.metric, v.dim, v.num_vectors), b),
        22 + 8 * v.num_vectors + 4 * v.data.len() <= b.len(),
        b.subrange(22, (22 + 8 * v.num_vectors) as int) == le64s(v.ids),
        b.subrange((22 + 8 * v.num_vectors) as int, (22 + 8 * v.num_vectors + 4 * v.data.len()) as int)
            == le32s(v.data),
{
    lemma_le_facts();
    let hb = header_bytes(INDEX_TYPE_FLAT, v.metric, v.dim, v.num_vectors);
    assert(hb.len() == 22);
    lemma_le64s_len(v.ids);
    lemma_le32s_len(v.data);
    lemma_prefix_concat(hb + le64s(v.ids), le32s(v.data), b);
    lemma_prefix_concat(hb, le64s(v.ids), b);
}

} // verus!
