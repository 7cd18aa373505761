//! The text of the errors that reading an index file or a write-ahead log
//! gives, as users see it.

use vstd::prelude::*;
use vstd::string::*;
use crate::persist::RestoreError;
use crate::serialize::{FormatError, Section};
use crate::text::{decimal, framed, framed2};
use crate::wal::{RecoveryError, ReplayError, WalError};

verus! {

/// The name of an index type by its code.
pub open spec fn index_kind_name(code: u8) -> Seq<char> {
    if code == 0 {
        "FlatIndex"@
    } else if code == 1 {
        "IVFIndex"@
    } else if code == 2 {
        "HnswGraph"@
    } else if code == 3 {
        "IVFPQIndex"@
    } else {
        "unknown"@
    }
}

fn index_kind_str(code: u8) -> (s: &'static str)
    ensures
        s@ == index_kind_name(code),
{
    if code == 0 {
        "FlatIndex"
    } else if code == 1 {
        "IVFIndex"
    } else if code == 2 {
        "HnswGraph"
    } else if code == 3 {
        "IVFPQIndex"
    } else {
        "unknown"
    }
}

/// The text for input that ended inside a section.
pub open spec fn section_text(s: Section) -> Seq<char> {
    match s {
        Section::MagicBytes => "failed to read magic bytes: failed to fill whole buffer"@,
        Section::FormatVersion => "failed to read format version: failed to fill whole buffer"@,
        Section::IndexType => "failed to read index type: failed to fill whole buffer"@,
        Section::MetricCode => "failed to read metric code: failed to fill whole buffer"@,
        Section::Dimension => "failed to read dimension: failed to fill whole buffer"@,
        Section::VectorCount => "failed to read vector count: failed to fill whole buffer"@,
        Section::Ids => "failed to read IDs (corrupted/truncated file): failed to fill whole buffer"@,
        Section::VectorData => "failed to read vector data (corrupted/truncated file): failed to fill whole buffer"@,
        Section::NumClusters => "failed to read num_clusters: failed to fill whole buffer"@,
        Section::ClusterCount => "failed to read cluster vector count: failed to fill whole buffer"@,
        Section::TrainedFlag => "failed to read is_trained flag: failed to fill whole buffer"@,
        Section::HnswConfig => "failed to read HNSW config: failed to fill whole buffer"@,
        Section::EntryPoint => "failed to read entry point: failed to fill whole buffer"@,
        Section::NodeCount => "failed to read node count: failed to fill whole buffer"@,
        Section::PqConfig => "failed to read PQ config: failed to fill whole buffer"@,
        Section::NodeId(i) => "failed to read node ID (node "@ + decimal(i as nat) + "): failed to fill whole buffer"@,
        Section::MaxLayer(i) => "failed to read max_layer (node "@ + decimal(i as nat) + "): failed to fill whole buffer"@,
        Section::ClusterVectorCount(i) => "failed to read vector count for cluster "@ + decimal(i as nat) + ": failed to fill whole buffer"@,
        Section::InvertedList(i) => "failed to read inverted list "@ + decimal(i as nat) + ": failed to fill whole buffer"@,
        Section::NeighborCount(i, l) => "failed to read neighbor count (node "@ + decimal(i as nat) + ", layer "@ + decimal(l as nat) + "): failed to fill whole buffer"@,
        Section::NeighborIndices(i, l) => "failed to read neighbor indices (node "@ + decimal(i as nat) + ", layer "@ + decimal(l as nat) + "): failed to fill whole buffer"@,
    }
}

/// The text for input that ended inside `s`.
pub fn section_message(s: Section) -> (msg: String)
    ensures
        msg@ == section_text(s),
{
    match s {
        Section::MagicBytes => String::from_str("failed to read magic bytes: failed to fill whole buffer"),
        Section::FormatVersion => String::from_str("failed to read format version: failed to fill whole buffer"),
        Section::IndexType => String::from_str("failed to read index type: failed to fill whole buffer"),
        Section::MetricCode => String::from_str("failed to read metric code: failed to fill whole buffer"),
        Section::Dimension => String::from_str("failed to read dimension: failed to fill whole buffer"),
        Section::VectorCount => String::from_str("failed to read vector count: failed to fill whole buffer"),
        Section::Ids => String::from_str("failed to read IDs (corrupted/truncated file): failed to fill whole buffer"),
        Section::VectorData => String::from_str("failed to read vector data (corrupted/truncated file): failed to fill whole buffer"),
        Section::NumClusters => String::from_str("failed to read num_clusters: failed to fill whole buffer"),
        Section::ClusterCount => String::from_str("failed to read cluster vector count: failed to fill whole buffer"),
        Section::TrainedFlag => String::from_str("failed to read is_trained flag: failed to fill whole buffer"),
        Section::HnswConfig => String::from_str("failed to read HNSW config: failed to fill whole buffer"),
        Section::EntryPoint => String::from_str("failed to read entry point: failed to fill whole buffer"),
        Section::NodeCount => String::from_str("failed to read node count: failed to fill whole buffer"),
        Section::PqConfig => String::from_str("failed to read PQ config: failed to fill whole buffer"),
        Section::NodeId(i) => framed("failed to read node ID (node ", i as u64, "): failed to fill whole buffer"),
        Section::MaxLayer(i) => framed("failed to read max_layer (node ", i as u64, "): failed to fill whole buffer"),
        Section::ClusterVectorCount(i) => framed("failed to read vector count for cluster ", i as u64, ": failed to fill whole buffer"),
        Section::InvertedList(i) => framed("failed to read inverted list ", i as u64, ": failed to fill whole buffer"),
        Section::NeighborCount(i, l) => framed2("failed to read neighbor count (node ", i as u64, ", layer ", l as u64, "): failed to fill whole buffer"),
        Section::NeighborIndices(i, l) => framed2("failed to read neighbor indices (node ", i as u64, ", layer ", l as u64, "): failed to fill whole buffer"),
    }
}

/// A signed integer in decimal.
pub open spec fn signed_decimal(x: int) -> Seq<char> {
    if x < 0 {
        "-"@ + decimal((-x) as nat)
    } else {
        decimal(x as nat)
    }
}

/// The text of an error in an index file.
pub open spec fn format_text(e: FormatError) -> Seq<char> {
    match e {
        FormatError::Truncated(s) => section_text(s),
        FormatError::BadMagic => "not a valid vecta index file"@,
        FormatError::UnsupportedVersion(v) => "unsupported format version "@ + decimal(v as nat)
            + ": current supported version is 1"@,
        FormatError::WrongIndexType { found, expected } => "file contains a different index type ("@ + decimal(
            found as nat,
        ) + "), expected "@ + index_kind_name(expected) + " ("@ + decimal(expected as nat) + ")"@,
        FormatError::UnknownMetric(c) => "unknown metric code: "@ + decimal(c as nat),
        FormatError::ZeroDimension => "invalid serialized index dimension 0"@,
        FormatError::CountTooLarge(n) => "vector count "@ + decimal(n as nat) + " does not fit in usize"@,
        FormatError::FloatCountOverflow => "total float count overflows usize"@,
        FormatError::CentroidCountOverflow => "centroid float count overflows usize"@,
        FormatError::ClusterFloatOverflow => "cluster float count overflows usize"@,
        FormatError::CodebookCountOverflow => "codebook float count overflows usize"@,
        FormatError::ClusterTotalMismatch { header, clusters } => "mismatch between header vector count ("@
            + decimal(header as nat) + ") and sum of cluster counts ("@ + decimal(clusters as nat) + ")"@,
        FormatError::NodeCountMismatch { header, nodes } => "mismatch between header vector count ("@ + decimal(
            header as nat,
        ) + ") and node count ("@ + decimal(nodes as nat) + ")"@,
        FormatError::NegativeEntryPoint(ep) => "invalid negative entry point index: "@ + signed_decimal(ep as int),
        FormatError::EntryPointOutOfBounds { entry, nodes } => "entry point index "@ + decimal(entry as nat)
            + " out of bounds for graph with "@ + decimal(nodes as nat) + " nodes"@,
        FormatError::NeighborOutOfBounds { neighbor, nodes } => "neighbor index "@ + decimal(neighbor as nat)
            + " out of bounds for graph with "@ + decimal(nodes as nat) + " nodes"@,
        FormatError::PqNotDivisible { dim, m } => "invalid PQ config: dim "@ + decimal(dim as nat)
            + " not evenly divisible by m "@ + decimal(m as nat),
        FormatError::PqCentroidCount(k) => "invalid PQ config: k_per_subvector "@ + decimal(k as nat)
            + " must be in 1..=256"@,
        FormatError::DuplicateId(id) => "duplicate id "@ + decimal(id as nat),
    }
}

/// The text for a file of another index type.
fn wrong_type_message(found: u8, expected: u8) -> (msg: String)
    ensures
        msg@ == "file contains a different index type ("@ + decimal(found as nat) + "), expected "@
            + index_kind_name(expected) + " ("@ + decimal(expected as nat) + ")"@,
{
    let mut msg = framed("file contains a different index type (", found as u64, "), expected ");
    msg.append(index_kind_str(expected));
    let tail = framed(" (", expected as u64, ")");
    msg.append(tail.as_str());
    msg
}

/// The text for an entry point below `-1`.
fn negative_entry_message(ep: i64) -> (msg: String)
    ensures
        msg@ == "invalid negative entry point index: "@ + signed_decimal(ep as int),
{
    proof {
        reveal_strlit("");
        reveal_strlit("-");
    }
    if ep < 0 {
        let mag: u64 = if ep == i64::MIN {
            0x8000_0000_0000_0000u64
        } else {
            (-ep) as u64
        };
        let msg = framed("invalid negative entry point index: -", mag, "");
        proof {
            let pre = "invalid negative entry point index: -"@;
            reveal_strlit("invalid negative entry point index: -");
            reveal_strlit("invalid negative entry point index: ");
            assert(pre =~= "invalid negative entry point index: "@ + "-"@);
        }
        msg
    } else {
        framed("invalid negative entry point index: ", ep as u64, "")
    }
}

/// The text of an error in an index file.
pub fn format_message(e: FormatError) -> (msg: String)
    ensures
        msg@ == format_text(e),
{
    proof {
        reveal_strlit("");
    }
    match e {
        FormatError::Truncated(s) => section_message(s),
        FormatError::BadMagic => String::from_str("not a valid vecta index file"),
        FormatError::UnsupportedVersion(v) => framed(
            "unsupported format version ",
            v as u64,
            ": current supported version is 1",
        ),
        FormatError::WrongIndexType { found, expected } => wrong_type_message(found, expected),
        FormatError::UnknownMetric(c) => framed("unknown metric code: ", c as u64, ""),
        FormatError::ZeroDimension => String::from_str("invalid serialized index dimension 0"),
        FormatError::CountTooLarge(n) => framed("vector count ", n, " does not fit in usize"),
        FormatError::FloatCountOverflow => String::from_str("total float count overflows usize"),
        FormatError::CentroidCountOverflow => String::from_str("centroid float count overflows usize"),
        FormatError::ClusterFloatOverflow => String::from_str("cluster float count overflows usize"),
        FormatError::CodebookCountOverflow => String::from_str("codebook float count overflows usize"),
        FormatError::ClusterTotalMismatch { header, clusters } => framed2(
            "mismatch between header vector count (",
            header as u64,
            ") and sum of cluster counts (",
            clusters,
            ")",
        ),
        FormatError::NodeCountMismatch { header, nodes } => framed2(
            "mismatch between header vector count (",
            header as u64,
            ") and node count (",
            nodes,
            ")",
        ),
        FormatError::NegativeEntryPoint(ep) => negative_entry_message(ep),
        FormatError::EntryPointOutOfBounds { entry, nodes } => framed2(
            "entry point index ",
            entry,
            " out of bounds for graph with ",
            nodes as u64,
            " nodes",
        ),
        FormatError::NeighborOutOfBounds { neighbor, nodes } => framed2(
            "neighbor index ",
            neighbor as u64,
            " out of bounds for graph with ",
            nodes as u64,
            " nodes",
        ),
        FormatError::PqNotDivisible { dim, m } => framed2(
            "invalid PQ config: dim ",
            dim as u64,
            " not evenly divisible by m ",
            m as u64,
            "",
        ),
        FormatError::PqCentroidCount(k) => framed("invalid PQ config: k_per_subvector ", k as u64, " must be in 1..=256"),
        FormatError::DuplicateId(id) => framed("duplicate id ", id, ""),
    }
}

/// The text of an error in a write-ahead log.
pub open spec fn wal_text(e: WalError) -> Seq<char> {
    match e {
        WalError::ZeroLengthPayload => "corrupted WAL entry: zero-length payload"@,
        WalError::ShortInsertPayload(len) => "corrupted WAL insert entry: payload length "@ + decimal(len as nat)
            + " < 13 bytes"@,
        WalError::PayloadLengthMismatch { len, expected } => "corrupted WAL insert entry: payload length "@
            + decimal(len as nat) + " does not match expected "@ + decimal(expected as nat),
        WalError::UnknownOp(op) => "unknown WAL op type: "@ + decimal(op as nat),
    }
}

/// The text of an error in a write-ahead log.
pub fn wal_message(e: WalError) -> (msg: String)
    ensures
        msg@ == wal_text(e),
{
    proof {
        reveal_strlit("");
    }
    match e {
        WalError::ZeroLengthPayload => String::from_str("corrupted WAL entry: zero-length payload"),
        WalError::ShortInsertPayload(len) => framed(
            "corrupted WAL insert entry: payload length ",
            len as u64,
            " < 13 bytes",
        ),
        WalError::PayloadLengthMismatch { len, expected } => framed2(
            "corrupted WAL insert entry: payload length ",
            len as u64,
            " does not match expected ",
            expected,
            "",
        ),
        WalError::UnknownOp(op) => framed("unknown WAL op type: ", op as u64, ""),
    }
}

/// The text of a logged operation that cannot be applied.
pub open spec fn replay_text(e: ReplayError) -> Seq<char> {
    match e {
        ReplayError::DimensionMismatch { got, expected } => "WAL replay error: vector dim "@ + decimal(got as nat)
            + " does not match index dim "@ + decimal(expected as nat),
        ReplayError::DuplicateId(id) => "WAL replay error: duplicate id "@ + decimal(id as nat)
            + " already in index"@,
    }
}

/// The text of a logged operation that cannot be applied.
pub fn replay_message(e: ReplayError) -> (msg: String)
    ensures
        msg@ == replay_text(e),
{
    proof {
        reveal_strlit("");
    }
    match e {
        ReplayError::DimensionMismatch { got, expected } => framed2(
            "WAL replay error: vector dim ",
            got as u64,
            " does not match index dim ",
            expected as u64,
            "",
        ),
        ReplayError::DuplicateId(id) => framed("WAL replay error: duplicate id ", id, " already in index"),
    }
}

/// The text of a snapshot that cannot be restored.
pub open spec fn restore_text(e: RestoreError) -> Seq<char> {
    match e {
        RestoreError::Format(f) => format_text(f),
        RestoreError::Recovery(RecoveryError::Snapshot(f)) => format_text(f),
        RestoreError::Recovery(RecoveryError::Log(w)) => wal_text(w),
        RestoreError::Recovery(RecoveryError::Replay(r)) => replay_text(r),
        RestoreError::Recovery(RecoveryError::TooManyVectors) => "WAL replay error: too many vectors for this machine"@,
        RestoreError::UnknownType(t) => "unknown index type "@ + decimal(t as nat),
    }
}

/// The text of a snapshot that cannot be restored.
pub fn restore_message(e: RestoreError) -> (msg: String)
    ensures
        msg@ == restore_text(e),
{
    proof {
        reveal_strlit("");
    }
    match e {
        RestoreError::Format(f) => format_message(f),
        RestoreError::Recovery(RecoveryError::Snapshot(f)) => format_message(f),
        RestoreError::Recovery(RecoveryError::Log(w)) => wal_message(w),
        RestoreError::Recovery(RecoveryError::Replay(r)) => replay_message(r),
        RestoreError::Recovery(RecoveryError::TooManyVectors) => String::from_str(
            "WAL replay error: too many vectors for this machine",
        ),
        RestoreError::UnknownType(t) => framed("unknown index type ", t as u64, ""),
    }
}

} // verus!
