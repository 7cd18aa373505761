use vecta::hnsw::{select_neighbors, HnswConfig, HnswGraph, HnswNode};
use vecta::topk::ScoredId;
use vecta::hnsw_format::{decode_hnsw_index, encode_hnsw_index};
use vecta::metric::Metric;
use vecta::serialize::{FormatError, Section};

fn bits(v: &[f32]) -> Vec<u32> {
    v.iter().map(|x| x.to_bits()).collect()
}

#[test]
fn test_new_graph_is_empty() {
    let graph = HnswGraph::new(128, Metric::Euclidean);
    assert_eq!(graph.len(), 0);
    assert!(graph.is_empty());
    assert_eq!(graph.dim(), 128);
    assert_eq!(graph.metric(), Metric::Euclidean);
    assert_eq!(graph.entry_point(), None);
    assert_eq!(graph.vectors.len(), 0);
    assert!(graph.id_to_index.is_empty());
}

fn three_node_graph() -> HnswGraph {
    let dim = 2;
    let mut graph = HnswGraph::new(dim, Metric::Euclidean);
    graph.vectors.push(&bits(&[1.0, 2.0]));
    graph.vectors.push(&bits(&[3.0, 4.0]));
    graph.vectors.push(&bits(&[5.0, 6.0]));
    graph.nodes.push(HnswNode { id: 100, vector_idx: 0, max_layer: 1, neighbors: vec![vec![1, 2], vec![1]] });
    graph.nodes.push(HnswNode { id: 200, vector_idx: 1, max_layer: 1, neighbors: vec![vec![0, 2], vec![0]] });
    graph.nodes.push(HnswNode { id: 300, vector_idx: 2, max_layer: 0, neighbors: vec![vec![0, 1]] });
    graph.id_to_index.insert(100, 0);
    graph.id_to_index.insert(200, 1);
    graph.id_to_index.insert(300, 2);
    graph.entry_point = Some(0);
    graph
}

#[test]
fn test_manual_multi_layer_graph_construction() {
    let graph = three_node_graph();

    assert_eq!(graph.len(), 3);
    assert!(!graph.is_empty());
    assert_eq!(graph.entry_point, Some(0));

    assert_eq!(graph.get_vector(0), bits(&[1.0, 2.0]).as_slice());
    assert_eq!(graph.get_vector(1), bits(&[3.0, 4.0]).as_slice());
    assert_eq!(graph.get_vector(2), bits(&[5.0, 6.0]).as_slice());

    assert_eq!(graph.get_neighbors(0, 0), &[1, 2]);
    assert_eq!(graph.get_neighbors(1, 0), &[0, 2]);
    assert_eq!(graph.get_neighbors(2, 0), &[0, 1]);

    let empty_neighbors: &[u32] = &[];
    assert_eq!(graph.get_neighbors(0, 1), &[1]);
    assert_eq!(graph.get_neighbors(1, 1), &[0]);
    assert_eq!(graph.get_neighbors(2, 1), empty_neighbors);

    assert_eq!(graph.internal_index_of(100), Some(0));
    assert_eq!(graph.internal_index_of(200), Some(1));
    assert_eq!(graph.internal_index_of(300), Some(2));
}

#[test]
fn test_get_neighbors_out_of_bounds_layer_returns_empty_slice() {
    let mut graph = HnswGraph::new(2, Metric::Euclidean);
    graph.vectors.push(&bits(&[1.0, 2.0]));
    graph.nodes.push(HnswNode { id: 42, vector_idx: 0, max_layer: 1, neighbors: vec![vec![], vec![]] });
    graph.id_to_index.insert(42, 0);

    let empty: &[u32] = &[];
    assert_eq!(graph.get_neighbors(0, 2), empty);
    assert_eq!(graph.get_neighbors(0, 5), empty);
    assert_eq!(graph.get_neighbors(0, 100), empty);
}

#[test]
fn test_internal_index_of_nonexistent_id_returns_none() {
    let mut graph = HnswGraph::new(2, Metric::Euclidean);
    graph.vectors.push(&bits(&[1.0, 2.0]));
    graph.nodes.push(HnswNode { id: 1, vector_idx: 0, max_layer: 0, neighbors: vec![vec![]] });
    graph.id_to_index.insert(1, 0);

    assert_eq!(graph.internal_index_of(1), Some(0));
    assert_eq!(graph.internal_index_of(2), None);
    assert_eq!(graph.internal_index_of(9999), None);
}

#[test]
fn add_node_edges_and_entry_point() {
    let mut graph = HnswGraph::new(1, Metric::Cosine);
    assert_eq!(graph.add_node(7, &bits(&[1.0]), 2), Ok(0));
    assert_eq!(graph.entry_point(), Some(0));
    assert_eq!(graph.add_node(8, &bits(&[2.0]), 0), Ok(1));
    assert_eq!(graph.add_node(7, &bits(&[3.0]), 0).unwrap_err(), "HnswGraph::insert: duplicate id 7");
    assert!(graph.add_edge(0, 0, 1));
    assert!(!graph.add_edge(0, 0, 1));
    assert_eq!(graph.get_neighbors(0, 0), &[1]);
    graph.set_neighbors(1, 0, vec![0]);
    assert_eq!(graph.get_neighbors(1, 0), &[0]);
    assert_eq!(graph.get_neighbors(0, 2), &[] as &[u32]);
}

#[test]
fn hnsw_round_trip_through_bytes() {
    let graph = three_node_graph();
    let config = HnswConfig { m: 8, ef_construction: 100, ef_search: 20 };
    let bytes = encode_hnsw_index(&graph, &config);
    let (back, cfg) = decode_hnsw_index(&bytes).unwrap();
    assert_eq!(cfg, config);
    assert_eq!(back.entry_point, Some(0));
    assert_eq!(back.len(), 3);
    for i in 0..3 {
        assert_eq!(back.nodes[i].id, graph.nodes[i].id);
        assert_eq!(back.nodes[i].max_layer, graph.nodes[i].max_layer);
        assert_eq!(back.nodes[i].neighbors, graph.nodes[i].neighbors);
        assert_eq!(back.get_vector(i), graph.get_vector(i));
    }
    assert_eq!(back.internal_index_of(300), Some(2));
    // 22 header + 12 config + 8 entry + 8 count + 6 coordinates + node records
    assert_eq!(bytes.len(), 22 + 12 + 8 + 8 + 24 + (12 + 4 + 8 + 4 + 4) + (12 + 4 + 8 + 4 + 4) + (12 + 4 + 8));
}

#[test]
fn hnsw_decoding_reports_bad_input() {
    let graph = three_node_graph();
    let config = HnswConfig::default();
    let bytes = encode_hnsw_index(&graph, &config);
    let cut = &bytes[..bytes.len() - 1];
    assert_eq!(decode_hnsw_index(cut).err(), Some(FormatError::Truncated(Section::NeighborIndices(2, 0))));

    let mut bad_neighbor = bytes.clone();
    let last = bad_neighbor.len() - 4;
    bad_neighbor[last..].copy_from_slice(&9u32.to_le_bytes());
    assert_eq!(
        decode_hnsw_index(&bad_neighbor).err(),
        Some(FormatError::NeighborOutOfBounds { neighbor: 9, nodes: 3 })
    );

    let mut bad_entry = bytes.clone();
    bad_entry[34..42].copy_from_slice(&(-5i64).to_le_bytes());
    assert_eq!(decode_hnsw_index(&bad_entry).err(), Some(FormatError::NegativeEntryPoint(-5)));

    let mut none_entry = bytes.clone();
    none_entry[34..42].copy_from_slice(&(-1i64).to_le_bytes());
    assert_eq!(decode_hnsw_index(&none_entry).unwrap().0.entry_point, None);

    let mut far_entry = bytes.clone();
    far_entry[34..42].copy_from_slice(&(3i64).to_le_bytes());
    assert_eq!(
        decode_hnsw_index(&far_entry).err(),
        Some(FormatError::EntryPointOutOfBounds { entry: 3, nodes: 3 })
    );

    let mut count = bytes.clone();
    count[42..50].copy_from_slice(&(4u64).to_le_bytes());
    assert_eq!(
        decode_hnsw_index(&count).err(),
        Some(FormatError::NodeCountMismatch { header: 3, nodes: 4 })
    );

    let mut other_type = bytes.clone();
    other_type[8] = 0;
    assert_eq!(
        decode_hnsw_index(&other_type).err(),
        Some(FormatError::WrongIndexType { found: 0, expected: 2 })
    );
}

#[test]
fn max_layer_distribution_counts_top_layers() {
    let graph = three_node_graph();
    let dist = graph.max_layer_distribution();
    assert_eq!(dist.len(), 2);
    assert_eq!(dist.get(&1), Some(&2));
    assert_eq!(dist.get(&0), Some(&1));
    assert!(HnswGraph::new(2, Metric::Cosine).max_layer_distribution().is_empty());
}

#[test]
fn select_neighbors_follows_total_cmp_for_nan() {
    let c = vec![
        ScoredId { id: 1, score_bits: 1.0f32.to_bits() },
        ScoredId { id: 2, score_bits: (-f32::NAN).to_bits() },
        ScoredId { id: 3, score_bits: f32::NAN.to_bits() },
        ScoredId { id: 4, score_bits: 0.5f32.to_bits() },
    ];
    assert_eq!(select_neighbors(&c, 4), vec![2, 4, 1, 3]);
    assert_eq!(select_neighbors(&c, 2), vec![2, 4]);
}

#[test]
fn check_new_id_refuses_a_held_id() {
    let mut graph = HnswGraph::new(2, Metric::Euclidean);
    assert_eq!(graph.check_new_id(7), Ok(()));
    graph.add_node(7, &bits(&[1.0, 2.0]), 0).unwrap();
    assert_eq!(graph.check_new_id(7), Err("HnswGraph::insert: duplicate id 7".to_string()));
    assert_eq!(graph.check_new_id(8), Ok(()));
}
