use std::collections::HashMap;

use rand::rngs::StdRng;
use rand::{Rng, SeedableRng};
use vecta::hnsw::{HnswConfig, HnswGraph};
use vecta::hnsw_insert::{InsertStep, Insertion};
use vecta::layer_search::LayerSearch;
use vecta::metric::Metric;
use vecta::topk::ScoredId;

fn bits(v: &[f32]) -> Vec<u32> {
    v.iter().map(|x| x.to_bits()).collect()
}

fn distance(a: &[u32], b: &[f32]) -> f32 {
    a.iter()
        .zip(b)
        .map(|(x, y)| {
            let d = f32::from_bits(*x) - y;
            d * d
        })
        .sum::<f32>()
        .sqrt()
}

fn search_layer(graph: &HnswGraph, query: &[f32], eps: &[usize], layer: usize, ef: usize) -> Vec<ScoredId> {
    let score = |n: usize| distance(graph.get_vector(n), query).to_bits();
    let (mut search, seeds) = LayerSearch::begin(graph.len(), eps, ef);
    let d: Vec<u32> = seeds.iter().map(|&n| score(n)).collect();
    search.seed(&seeds, &d);
    while let Some(node) = search.next_node() {
        let fresh = search.unvisited(graph.get_neighbors(node, layer));
        let d: Vec<u32> = fresh.iter().map(|&n| score(n)).collect();
        search.absorb(&fresh, &d);
    }
    search.finish()
}

fn assign_layer(m: usize, rng: &mut impl Rng) -> usize {
    let ml = 1.0 / (m as f32).ln();
    let u: f32 = rng.gen();
    let u = if u <= 0.0 { f32::EPSILON } else if u > 1.0 { 1.0 } else { u };
    let raw = (-u.ln() * ml).floor();
    if raw.is_nan() || raw < 0.0 {
        0
    } else {
        raw as usize
    }
}

/// Insert with Euclidean distances, running the steps the library asks for.
fn insert(graph: &mut HnswGraph, id: u64, vector: &[f32], config: &HnswConfig, rng: &mut impl Rng) -> Result<(), String> {
    if graph.id_to_index.contains_key(&id) {
        return Err(format!("HnswGraph::insert: duplicate id {}", id));
    }
    let level = assign_layer(config.m, rng);
    let mut ins = Insertion::begin(graph, id, &bits(vector), level, config)?;
    loop {
        match ins.next() {
            InsertStep::Done => return Ok(()),
            InsertStep::Search { layer, ef } => {
                let found = search_layer(graph, vector, ins.entry_points(), layer, ef);
                ins.found(graph, &found);
            }
            InsertStep::Prune { node, layer } => {
                let v: Vec<f32> = graph.get_vector(node).iter().map(|b| f32::from_bits(*b)).collect();
                let d: Vec<u32> = graph
                    .get_neighbors(node, layer)
                    .iter()
                    .map(|&n| distance(graph.get_vector(n as usize), &v).to_bits())
                    .collect();
                ins.pruned(graph, &d);
            }
        }
    }
}

#[test]
fn test_insert_empty_graph() {
    let mut graph = HnswGraph::new(3, Metric::Euclidean);
    let config = HnswConfig::default();
    let mut rng = StdRng::seed_from_u64(42);

    let res = insert(&mut graph, 100, &[1.0, 2.0, 3.0], &config, &mut rng);
    assert!(res.is_ok());
    assert_eq!(graph.len(), 1);
    assert!(!graph.is_empty());
    assert_eq!(graph.entry_point, Some(0));
    assert_eq!(graph.internal_index_of(100), Some(0));

    let node = &graph.nodes[0];
    assert_eq!(node.id, 100);
    assert_eq!(node.neighbors.len(), node.max_layer + 1);
    for l in 0..=node.max_layer {
        assert!(node.neighbors[l].is_empty());
    }
}

#[test]
fn test_insert_duplicate_id_returns_err() {
    let mut graph = HnswGraph::new(2, Metric::Euclidean);
    let config = HnswConfig::default();
    let mut rng = StdRng::seed_from_u64(42);

    assert!(insert(&mut graph, 42, &[1.0, 2.0], &config, &mut rng).is_ok());
    assert_eq!(graph.len(), 1);

    let res = insert(&mut graph, 42, &[3.0, 4.0], &config, &mut rng);
    assert!(res.is_err());
    assert_eq!(res.unwrap_err(), "HnswGraph::insert: duplicate id 42");
    assert_eq!(graph.len(), 1);
}

#[test]
fn test_hand_verified_geometric_connections() {
    let mut graph = HnswGraph::new(2, Metric::Euclidean);
    let config = HnswConfig { m: 2, ef_construction: 50, ef_search: 20 };
    let mut rng = StdRng::seed_from_u64(1234);

    let points: Vec<(u64, [f32; 2])> = vec![
        (1, [1.0, 1.0]),
        (2, [1.0, 1.5]),
        (3, [1.5, 1.0]),
        (4, [9.0, 9.0]),
        (5, [9.0, 8.5]),
        (6, [8.5, 9.0]),
    ];

    for (id, pt) in &points {
        insert(&mut graph, *id, pt, &config, &mut rng).unwrap();
    }

    assert_eq!(graph.len(), 6);

    for i in 0..points.len() {
        let nbrs: Vec<u64> = graph.nodes[i].neighbors[0].iter().map(|&idx| graph.nodes[idx as usize].id).collect();
        if graph.nodes[i].id <= 3 {
            assert!(nbrs.iter().any(|&id| id <= 3), "Cluster A node should connect to another Cluster A point");
        } else {
            assert!(nbrs.iter().any(|&id| id >= 4), "Cluster B node should connect to another Cluster B point");
        }
    }
}

#[test]
fn test_bidirectionality_edges() {
    let mut graph = HnswGraph::new(2, Metric::Euclidean);
    let config = HnswConfig { m: 8, ef_construction: 50, ef_search: 20 };
    let mut rng = StdRng::seed_from_u64(999);

    let points = [(1, [0.0, 0.0]), (2, [1.0, 0.0]), (3, [0.0, 1.0]), (4, [1.0, 1.0])];

    for (id, pt) in &points {
        insert(&mut graph, *id, pt, &config, &mut rng).unwrap();
    }

    for a_idx in 0..graph.len() {
        for &b_u32 in &graph.nodes[a_idx].neighbors[0] {
            let b_idx = b_u32 as usize;
            assert!(
                graph.nodes[b_idx].neighbors[0].contains(&(a_idx as u32)),
                "Edge {} -> {} exists, but {} does not link back to {}",
                a_idx,
                b_idx,
                b_idx,
                a_idx
            );
        }
    }
}

#[test]
fn test_neighbor_list_capacity_cap() {
    let m = 3;
    let mut graph = HnswGraph::new(2, Metric::Euclidean);
    let config = HnswConfig { m, ef_construction: 50, ef_search: 20 };
    let mut rng = StdRng::seed_from_u64(777);

    for i in 0..30 {
        let pt = [(i as f32) * 0.5, (i as f32) * 0.3];
        insert(&mut graph, i as u64, &pt, &config, &mut rng).unwrap();
    }

    let max_l0 = 2 * m;
    for node in &graph.nodes {
        for (l, nbrs) in node.neighbors.iter().enumerate() {
            let cap = if l == 0 { max_l0 } else { m };
            assert!(nbrs.len() <= cap, "Node {} at layer {} has {} neighbors, exceeding cap of {}", node.id, l, nbrs.len(), cap);
        }
    }
}

#[test]
fn test_entry_point_correctness() {
    let mut graph = HnswGraph::new(2, Metric::Euclidean);
    let config = HnswConfig::default();
    let mut rng = StdRng::seed_from_u64(12345);

    for i in 0..50 {
        let pt = [i as f32, (i * 2) as f32];
        insert(&mut graph, i as u64, &pt, &config, &mut rng).unwrap();
    }

    let ep = graph.entry_point.expect("Entry point must be set");
    let ep_max_layer = graph.nodes[ep].max_layer;
    for (idx, node) in graph.nodes.iter().enumerate() {
        assert!(
            ep_max_layer >= node.max_layer,
            "Node {} has layer {} > entry_point {} (layer {})",
            idx,
            node.max_layer,
            ep,
            ep_max_layer
        );
    }
}

#[test]
fn test_large_scale_500_vectors_insertion() {
    let n = 500;
    let dim = 128;
    let mut graph = HnswGraph::new(dim, Metric::Euclidean);
    let config = HnswConfig::default();
    let mut rng = StdRng::seed_from_u64(42);

    for id in 0..n {
        let mut v = Vec::with_capacity(dim);
        for _ in 0..dim {
            v.push(rng.gen_range(-10.0..10.0));
        }
        insert(&mut graph, id as u64, &v, &config, &mut rng).unwrap();
    }

    assert_eq!(graph.len(), n);
    assert!(!graph.is_empty());
    assert!(graph.entry_point.is_some());

    let mut layer_counts: HashMap<usize, usize> = HashMap::new();
    for node in &graph.nodes {
        *layer_counts.entry(node.max_layer).or_insert(0) += 1;
    }
    let l0 = *layer_counts.get(&0).unwrap_or(&0);
    assert!(l0 > (n * 80 / 100));
}

/// Drive an insertion that was begun, with Euclidean distances.
fn run(graph: &mut HnswGraph, mut ins: Insertion, vector: &[f32]) {
    loop {
        match ins.next() {
            InsertStep::Done => return,
            InsertStep::Search { layer, ef } => {
                let found = search_layer(graph, vector, ins.entry_points(), layer, ef);
                ins.found(graph, &found);
            }
            InsertStep::Prune { node, layer } => {
                let v: Vec<f32> = graph.get_vector(node).iter().map(|b| f32::from_bits(*b)).collect();
                let d: Vec<u32> = graph
                    .get_neighbors(node, layer)
                    .iter()
                    .map(|&n| distance(graph.get_vector(n as usize), &v).to_bits())
                    .collect();
                ins.pruned(graph, &d);
            }
        }
    }
}

#[test]
fn linking_touches_only_the_selected_lists() {
    let mut graph = HnswGraph::new(2, Metric::Euclidean);
    let config = HnswConfig { m: 2, ef_construction: 10, ef_search: 10 };
    let points: [[f32; 2]; 3] = [[0.0, 0.0], [1.0, 0.0], [5.0, 5.0]];
    for (i, p) in points.iter().enumerate() {
        let ins = Insertion::begin(&mut graph, i as u64, &bits(p), 0, &config).unwrap();
        run(&mut graph, ins, p);
    }
    let before: Vec<Vec<u32>> = (0..3).map(|n| graph.get_neighbors(n, 0).to_vec()).collect();

    let mut ins = Insertion::begin(&mut graph, 3, &bits(&[1.0, 1.0]), 0, &config).unwrap();
    assert_eq!(ins.next(), InsertStep::Search { layer: 0, ef: 10 });
    let results = vec![ScoredId { id: 1, score_bits: 1.0f32.to_bits() }];
    ins.found(&mut graph, &results);

    assert_eq!(graph.get_neighbors(3, 0), &[1u32][..]);
    let mut expected = before[1].clone();
    expected.push(3);
    assert_eq!(graph.get_neighbors(1, 0), &expected[..]);
    assert_eq!(graph.get_neighbors(0, 0), &before[0][..]);
    assert_eq!(graph.get_neighbors(2, 0), &before[2][..]);
    assert_eq!(ins.next(), InsertStep::Done);
    assert_eq!(graph.entry_point, Some(0));
}
