use vecta::batch::VectorBatch;
use vecta::flat_index::FlatIndex;
use vecta::hnsw::HnswGraph;
use vecta::ivf::IVFIndex;
use vecta::metric::Metric;
use vecta::persist::{restore_collection, snapshot_bytes, RestoreError};
use vecta::pq::{IVFPQIndex, PQConfig};
use vecta::serialize::{FormatError, Section};
use vecta::server::CollectionIndex;
use vecta::wal::{encode_insert_entry, RecoveryError, WalError};

fn bits(v: &[f32]) -> Vec<u32> {
    v.iter().map(|x| x.to_bits()).collect()
}

fn flat() -> FlatIndex {
    let mut index = FlatIndex::new(2, Metric::Cosine);
    index.add(7, &bits(&[1.0, 2.0]));
    index.add(9, &bits(&[3.0, 4.0]));
    index
}

#[test]
fn flat_snapshot_restores_and_replays_the_log() {
    let snap = snapshot_bytes(&CollectionIndex::Flat(flat()));
    match restore_collection(&snap, None).unwrap() {
        CollectionIndex::Flat(i) => {
            assert_eq!(i.ids, vec![7, 9]);
            assert_eq!(i.batch.data, bits(&[1.0, 2.0, 3.0, 4.0]));
            assert_eq!(i.metric, Metric::Cosine);
        }
        other => panic!("restored the wrong kind: {:?}", other),
    }
    let log = encode_insert_entry(11, &bits(&[5.0, 6.0])).unwrap();
    match restore_collection(&snap, Some(&log)).unwrap() {
        CollectionIndex::Flat(i) => assert_eq!(i.ids, vec![7, 9, 11]),
        other => panic!("restored the wrong kind: {:?}", other),
    }
    let bad_log = vec![0u8, 0, 0, 0];
    assert!(matches!(
        restore_collection(&snap, Some(&bad_log)),
        Err(RestoreError::Recovery(RecoveryError::Log(WalError::ZeroLengthPayload)))
    ));
}

#[test]
fn other_kinds_restore_from_their_snapshots() {
    let mut ivf = IVFIndex::new(2, 2, Metric::Euclidean);
    ivf.set_centroids(VectorBatch::from_parts(bits(&[0.0, 0.0, 10.0, 10.0]), 2, 2).unwrap());
    ivf.add(3, &bits(&[9.0, 9.0]), 1).unwrap();
    let snap = snapshot_bytes(&CollectionIndex::Ivf(ivf));
    // A log given with a non-flat snapshot is not read.
    match restore_collection(&snap, Some(&[1, 2, 3])).unwrap() {
        CollectionIndex::Ivf(i) => {
            assert!(i.is_trained);
            assert_eq!(i.cluster_sizes(), vec![0, 1]);
        }
        other => panic!("restored the wrong kind: {:?}", other),
    }

    let mut g = HnswGraph::new(2, Metric::DotProduct);
    g.add_node(5, &bits(&[1.0, 0.0]), 0).unwrap();
    let snap = snapshot_bytes(&CollectionIndex::Hnsw(g));
    match restore_collection(&snap, None).unwrap() {
        CollectionIndex::Hnsw(g) => {
            assert_eq!(g.len(), 1);
            assert_eq!(g.metric, Metric::DotProduct);
        }
        other => panic!("restored the wrong kind: {:?}", other),
    }

    let pq = IVFPQIndex::new(4, 3, PQConfig { m: 2, k_per_subvector: 4, max_iterations: 1 }).unwrap();
    let snap = snapshot_bytes(&CollectionIndex::IvfPq(pq));
    match restore_collection(&snap, None).unwrap() {
        CollectionIndex::IvfPq(i) => {
            assert_eq!(i.num_clusters(), 3);
            assert!(!i.is_trained);
        }
        other => panic!("restored the wrong kind: {:?}", other),
    }
}

#[test]
fn restore_reports_bad_snapshots() {
    let mut snap = snapshot_bytes(&CollectionIndex::Flat(flat()));
    snap[8] = 9;
    assert_eq!(restore_collection(&snap, None).unwrap_err(), RestoreError::UnknownType(9));
    assert_eq!(
        restore_collection(&snap[..6], None).unwrap_err(),
        RestoreError::Format(FormatError::Truncated(Section::FormatVersion))
    );
    assert_eq!(restore_collection(b"NOPE1234x", None).unwrap_err(), RestoreError::Format(FormatError::BadMagic));
    let mut snap = snapshot_bytes(&CollectionIndex::Flat(flat()));
    snap[9] = 7;
    assert_eq!(
        restore_collection(&snap, Some(&[])).unwrap_err(),
        RestoreError::Recovery(RecoveryError::Snapshot(FormatError::UnknownMetric(7)))
    );
}
