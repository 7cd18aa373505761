//! Snapshots of collections: the bytes a collection is saved as, and the
//! collection restored from a snapshot together with, for a flat
//! collection, the write-ahead log appended since.

use vstd::prelude::*;
use crate::codec::is_prefix;
use crate::flat_index::FlatIndexView;
use crate::hnsw::{GraphView, HnswConfig};
use crate::hnsw_format::{decode_hnsw_index, encode_hnsw_index, hnsw_bytes, hnsw_encodable};
use crate::ivf::{IvfView, lists_total};
use crate::ivf_format::{decode_ivf_index, encode_ivf_index, ivf_bytes, ivf_encodable};
use crate::ivf_pq_format::{book_words_len, decode_ivf_pq_index, encode_ivf_pq_index, ivf_pq_bytes, ivf_pq_encodable};
use crate::pq::{IvfPqView, entries_total};
use crate::serialize::{
    decode_flat_index, encode_flat_index, flat_bytes, flat_encodable, header_bytes, header_check, index_type_of,
    lemma_header_prefix_type, peek_index_type, FormatError, INDEX_TYPE_FLAT, INDEX_TYPE_HNSW, INDEX_TYPE_IVF,
    INDEX_TYPE_IVF_PQ,
};
use crate::server::{CollectionIndex, IndexKind};
use crate::wal::{parse_log, recover_flat_index, replay_onto, RecoveryError};

verus! {

/// Why a collection cannot be restored.
#[derive(Debug, Clone, PartialEq, Eq)]
pub enum RestoreError {
    /// The snapshot is not a valid file of its index type.
    Format(FormatError),
    /// A flat collection's snapshot or log cannot be recovered.
    Recovery(RecoveryError),
    /// The snapshot's type code names no index type.
    UnknownType(u8),
}

/// The HNSW parameters written into graph snapshots.
pub open spec fn snapshot_config() -> HnswConfig {
    HnswConfig { m: 16, ef_construction: 200, ef_search: 50 }
}

/// The type code of an index family.
pub open spec fn kind_code(kind: IndexKind) -> u8 {
    match kind {
        IndexKind::Flat => INDEX_TYPE_FLAT,
        IndexKind::Ivf => INDEX_TYPE_IVF,
        IndexKind::Hnsw => INDEX_TYPE_HNSW,
        IndexKind::IvfPq => INDEX_TYPE_IVF_PQ,
    }
}

/// The bytes a collection is saved as.
pub open spec fn snapshot_of(index: CollectionIndex) -> Seq<u8> {
    match index {
        CollectionIndex::Flat(i) => flat_bytes(i@),
        CollectionIndex::Ivf(i) => ivf_bytes(i@),
        CollectionIndex::Hnsw(g) => hnsw_bytes(g@, snapshot_config()),
        CollectionIndex::IvfPq(i) => ivf_pq_bytes(i@),
    }
}

/// The sizes of a collection can be written in machine words.
pub open spec fn snapshot_fits(index: CollectionIndex) -> bool {
    match index {
        CollectionIndex::Ivf(i) => lists_total(i@.lists) <= usize::MAX && (!i.is_trained ==> i.inverted_lists@.len()
            * i.dim <= usize::MAX),
        CollectionIndex::IvfPq(i) => entries_total(i@.lists) <= usize::MAX && (!i.is_trained
            ==> i.inverted_lists@.len() * i.dim <= usize::MAX) && (i.pq_codebooks is None ==> book_words_len(i@)
            <= usize::MAX),
        _ => true,
    }
}

/// Encode a collection as a snapshot.
pub fn snapshot_bytes(index: &CollectionIndex) -> (out: Vec<u8>)
    requires
        index.wf(),
        snapshot_fits(*index),
    ensures
        out@ == snapshot_of(*index),
{
    match index {
        CollectionIndex::Flat(i) => encode_flat_index(i),
        CollectionIndex::Ivf(i) => encode_ivf_index(i),
        CollectionIndex::Hnsw(g) => {
            let config = HnswConfig { m: 16, ef_construction: 200, ef_search: 50 };
            encode_hnsw_index(g, &config)
        },
        CollectionIndex::IvfPq(i) => encode_ivf_pq_index(i),
    }
}

/// A prefix of a prefix of `s` is a prefix of `s`.
proof fn lemma_prefix_take(p: Seq<u8>, k: int, s: Seq<u8>)
    requires
        is_prefix(p, s),
        0 <= k <= p.len(),
    ensures
        is_prefix(p.subrange(0, k), s),
{
    assert(s.subrange(0, k) =~= p.subrange(0, k));
}

/// The bytes of a flat index open with a flat header.
proof fn lemma_flat_type(v: FlatIndexView, s: Seq<u8>)
    requires
        is_prefix(flat_bytes(v), s),
    ensures
        index_type_of(s) == Ok::<u8, FormatError>(INDEX_TYPE_FLAT),
{
    let h = header_bytes(INDEX_TYPE_FLAT, v.metric, v.dim, v.num_vectors);
    lemma_prefix_take(flat_bytes(v), h.len() as int, s);
    assert(flat_bytes(v).subrange(0, h.len() as int) =~= h);
    lemma_header_prefix_type(INDEX_TYPE_FLAT, v.metric, v.dim, v.num_vectors, s);
}

/// The bytes of an IVF index open with an IVF header.
proof fn lemma_ivf_type(v: IvfView, s: Seq<u8>)
    requires
        is_prefix(ivf_bytes(v), s),
    ensures
        index_type_of(s) == Ok::<u8, FormatError>(INDEX_TYPE_IVF),
{
    let h = header_bytes(INDEX_TYPE_IVF, v.metric, v.dim, lists_total(v.lists));
    lemma_prefix_take(ivf_bytes(v), h.len() as int, s);
    assert(ivf_bytes(v).subrange(0, h.len() as int) =~= h);
    lemma_header_prefix_type(INDEX_TYPE_IVF, v.metric, v.dim, lists_total(v.lists), s);
}

/// The bytes of a graph open with an HNSW header.
proof fn lemma_hnsw_type(v: GraphView, c: HnswConfig, s: Seq<u8>)
    requires
        is_prefix(hnsw_bytes(v, c), s),
    ensures
        index_type_of(s) == Ok::<u8, FormatError>(INDEX_TYPE_HNSW),
{
    let h = header_bytes(INDEX_TYPE_HNSW, v.metric, v.dim, v.nodes.len());
    lemma_prefix_take(hnsw_bytes(v, c), h.len() as int, s);
    assert(hnsw_bytes(v, c).subrange(0, h.len() as int) =~= h);
    lemma_header_prefix_type(INDEX_TYPE_HNSW, v.metric, v.dim, v.nodes.len(), s);
}

/// The bytes of an IVF-PQ index open with an IVF-PQ header.
proof fn lemma_ivf_pq_type(v: IvfPqView, s: Seq<u8>)
    requires
        is_prefix(ivf_pq_bytes(v), s),
    ensures
        index_type_of(s) == Ok::<u8, FormatError>(INDEX_TYPE_IVF_PQ),
{
    let h = header_bytes(INDEX_TYPE_IVF_PQ, v.metric, v.dim, entries_total(v.lists));
    lemma_prefix_take(ivf_pq_bytes(v), h.len() as int, s);
    assert(ivf_pq_bytes(v).subrange(0, h.len() as int) =~= h);
    lemma_header_prefix_type(INDEX_TYPE_IVF_PQ, v.metric, v.dim, entries_total(v.lists), s);
}

/// Restore a collection from its snapshot and, for a flat collection, the
/// write-ahead log appended since the snapshot was taken.
///
/// The snapshot's type code is read first; a flat snapshot with a log is
/// recovered by replaying the log onto it, any other snapshot is decoded as
/// its type says (a log given with it is not read).
pub fn restore_collection(snapshot: &[u8], wal: Option<&[u8]>) -> (res: Result<CollectionIndex, RestoreError>)
    ensures
        index_type_of(snapshot@) matches Err(e) ==> res == Err::<CollectionIndex, RestoreError>(
            RestoreError::Format(e),
        ),
        index_type_of(snapshot@) matches Ok(t) ==> (t > INDEX_TYPE_IVF_PQ ==> res == Err::<
            CollectionIndex,
            RestoreError,
        >(RestoreError::UnknownType(t))),
        index_type_of(snapshot@) matches Ok(t) ==> (t <= INDEX_TYPE_IVF_PQ && header_check(snapshot@, t) is Err ==> (
        if t == INDEX_TYPE_FLAT && wal is Some {
            res == Err::<CollectionIndex, RestoreError>(
                RestoreError::Recovery(RecoveryError::Snapshot(header_check(snapshot@, t)->Err_0)),
            )
        } else {
            res == Err::<CollectionIndex, RestoreError>(RestoreError::Format(header_check(snapshot@, t)->Err_0))
        })),
        res matches Ok(c) ==> c.wf() && index_type_of(snapshot@) == Ok::<u8, FormatError>(kind_code(c.kind())),
        wal is None ==> forall|v: FlatIndexView|
            flat_encodable(v) && is_prefix(#[trigger] flat_bytes(v), snapshot@) ==> (res matches Ok(
                CollectionIndex::Flat(i),
            ) && i@ == v),
        wal matches Some(w) ==> forall|v: FlatIndexView|
            flat_encodable(v) && is_prefix(#[trigger] flat_bytes(v), snapshot@) ==> match parse_log(w@) {
                Err(e) => res == Err::<CollectionIndex, RestoreError>(RestoreError::Recovery(RecoveryError::Log(e))),
                Ok(ops) => ops.len() + v.num_vectors <= usize::MAX ==> match replay_onto(v, ops) {
                    Ok(after) => (res matches Ok(CollectionIndex::Flat(i)) && i@ == after),
                    Err(e) => res == Err::<CollectionIndex, RestoreError>(
                        RestoreError::Recovery(RecoveryError::Replay(e)),
                    ),
                },
            },
        forall|v: IvfView|
            ivf_encodable(v) && is_prefix(#[trigger] ivf_bytes(v), snapshot@) ==> (res matches Ok(
                CollectionIndex::Ivf(i),
            ) && i@ == v),
        forall|v: GraphView, c: HnswConfig|
            hnsw_encodable(v, c) && is_prefix(#[trigger] hnsw_bytes(v, c), snapshot@) ==> (res matches Ok(
                CollectionIndex::Hnsw(g),
            ) && g@ == v),
        forall|v: IvfPqView|
            ivf_pq_encodable(v) && is_prefix(#[trigger] ivf_pq_bytes(v), snapshot@) ==> (res matches Ok(
                CollectionIndex::IvfPq(i),
            ) && i@ == v),
{
    let t = match peek_index_type(snapshot) {
        Ok(t) => t,
        Err(e) => {
            proof {
                assert forall|v: FlatIndexView| #[trigger] is_prefix(flat_bytes(v), snapshot@) implies false by {
                    lemma_flat_type(v, snapshot@);
                }
                assert forall|v: IvfView| #[trigger] is_prefix(ivf_bytes(v), snapshot@) implies false by {
                    lemma_ivf_type(v, snapshot@);
                }
                assert forall|v: GraphView, c: HnswConfig| #[trigger] is_prefix(hnsw_bytes(v, c), snapshot@) implies false by {
                    lemma_hnsw_type(v, c, snapshot@);
                }
                assert forall|v: IvfPqView| #[trigger] is_prefix(ivf_pq_bytes(v), snapshot@) implies false by {
                    lemma_ivf_pq_type(v, snapshot@);
                }
            }
            return Err(RestoreError::Format(e));
        },
    };
    proof {
        if t != INDEX_TYPE_FLAT {
            assert forall|v: FlatIndexView| #[trigger] is_prefix(flat_bytes(v), snapshot@) implies false by {
                lemma_flat_type(v, snapshot@);
            }
        }
        if t != INDEX_TYPE_IVF {
            assert forall|v: IvfView| #[trigger] is_prefix(ivf_bytes(v), snapshot@) implies false by {
                lemma_ivf_type(v, snapshot@);
            }
        }
        if t != INDEX_TYPE_HNSW {
            assert forall|v: GraphView, c: HnswConfig| #[trigger] is_prefix(hnsw_bytes(v, c), snapshot@) implies false by {
                lemma_hnsw_type(v, c, snapshot@);
            }
        }
        if t != INDEX_TYPE_IVF_PQ {
            assert forall|v: IvfPqView| #[trigger] is_prefix(ivf_pq_bytes(v), snapshot@) implies false by {
                lemma_ivf_pq_type(v, snapshot@);
            }
        }
    }
    if t == INDEX_TYPE_FLAT {
        match wal {
            Some(w) => match recover_flat_index(snapshot, w) {
                Ok(i) => Ok(CollectionIndex::Flat(i)),
                Err(e) => Err(RestoreError::Recovery(e)),
            },
            None => match decode_flat_index(snapshot) {
                Ok(i) => Ok(CollectionIndex::Flat(i)),
                Err(e) => Err(RestoreError::Format(e)),
            },
        }
    } else if t == INDEX_TYPE_IVF {
        match decode_ivf_index(snapshot) {
            Ok(i) => Ok(CollectionIndex::Ivf(i)),
            Err(e) => Err(RestoreError::Format(e)),
        }
    } else if t == INDEX_TYPE_HNSW {
        match decode_hnsw_index(snapshot) {
            Ok((g, _)) => Ok(CollectionIndex::Hnsw(g)),
            Err(e) => Err(RestoreError::Format(e)),
        }
    } else if t == INDEX_TYPE_IVF_PQ {
        match decode_ivf_pq_index(snapshot) {
            Ok(i) => Ok(CollectionIndex::IvfPq(i)),
            Err(e) => Err(RestoreError::Format(e)),
        }
    } else {
        Err(RestoreError::UnknownType(t))
    }
}

} // verus!
