//! Hierarchical Navigable Small World graph: storage and structural updates.
//!
//! Each node keeps one adjacency list per layer from 0 to its `max_layer`;
//! neighbor entries are internal node indices. Distances are not computed
//! here: the traversal that compares vectors hands its choices to the
//! structural operations below, which keep the graph well formed.

use vstd::prelude::*;
use std::collections::HashMap;
use vstd::string::*;
use crate::batch::VectorBatch;
use crate::metric::Metric;
use crate::text::{decimal, decimal_string};
use crate::topk::{ScoredId, is_top_k_total, top_k_total};

verus! {

broadcast use vstd::std_specs::hash::group_hash_axioms;

/// Configuration parameters for HNSW construction and search.
#[derive(Debug, Clone, Copy, PartialEq, Eq, Structural)]
pub struct HnswConfig {
    /// Maximum number of links per node per layer (twice that at layer 0).
    pub m: usize,
    /// Size of the candidate list during insertion.
    pub ef_construction: usize,
    /// Size of the candidate list during search.
    pub ef_search: usize,
}

impl Default for HnswConfig {
    fn default() -> (c: Self)
        ensures
            c.m == 16 && c.ef_construction == 200 && c.ef_search == 50,
    {
        HnswConfig { m: 16, ef_construction: 200, ef_search: 50 }
    }
}

/// A single node in the hierarchy.
#[derive(Debug, Clone)]
pub struct HnswNode {
    /// External identifier.
    pub id: u64,
    /// Row of this node's vector in the graph's vector store.
    pub vector_idx: usize,
    /// Highest layer in which this node exists.
    pub max_layer: usize,
    /// `neighbors[layer]`: internal indices of the neighbors at `layer`.
    pub neighbors: Vec<Vec<u32>>,
}

/// The abstract content of a node.
pub ghost struct NodeView {
    pub id: u64,
    pub vector_idx: nat,
    pub max_layer: nat,
    pub neighbors: Seq<Seq<u32>>,
}

impl View for HnswNode {
    type V = NodeView;

    open spec fn view(&self) -> NodeView {
        NodeView {
            id: self.id,
            vector_idx: self.vector_idx as nat,
            max_layer: self.max_layer as nat,
            neighbors: self.neighbors@.map_values(|l: Vec<u32>| l@),
        }
    }
}

/// The multi-layer graph.
#[derive(Debug, Clone)]
pub struct HnswGraph {
    /// Nodes, indexed by internal index.
    pub nodes: Vec<HnswNode>,
    /// Map from external ID to internal index.
    pub id_to_index: HashMap<u64, usize>,
    /// Vector store; node `i`'s vector is row `nodes[i].vector_idx`.
    pub vectors: VectorBatch,
    /// Internal index of the top-layer entry point, if any.
    pub entry_point: Option<usize>,
    /// Dimensionality of the vectors.
    pub dim: usize,
    /// Metric used to score search results.
    pub metric: Metric,
}

/// The abstract content of a graph.
pub ghost struct GraphView {
    pub nodes: Seq<NodeView>,
    pub id_to_index: Map<u64, usize>,
    pub vectors: Seq<u32>,
    pub num_vectors: nat,
    pub entry_point: Option<usize>,
    pub dim: nat,
    pub metric: Metric,
}

impl View for HnswGraph {
    type V = GraphView;

    open spec fn view(&self) -> GraphView {
        GraphView {
            nodes: self.nodes@.map_values(|n: HnswNode| n@),
            id_to_index: self.id_to_index@,
            vectors: self.vectors.data@,
            num_vectors: self.vectors.num_vectors as nat,
            entry_point: self.entry_point,
            dim: self.dim as nat,
            metric: self.metric,
        }
    }
}

/// The number of the first `n` nodes whose top layer is `layer`.
pub open spec fn layer_count(nodes: Seq<NodeView>, layer: nat, n: int) -> nat
    decreases n,
{
    if n <= 0 {
        0
    } else {
        layer_count(nodes, layer, n - 1) + (if nodes[n - 1].max_layer == layer { 1nat } else { 0nat })
    }
}

/// A count never exceeds the number of nodes counted.
pub proof fn lemma_layer_count_bound(nodes: Seq<NodeView>, layer: nat, n: int)
    requires
        0 <= n,
    ensures
        layer_count(nodes, layer, n) <= n,
    decreases n,
{
    if n > 0 {
        lemma_layer_count_bound(nodes, layer, n - 1);
    }
}

/// Each ID mapped to the last node index that carries it.
pub open spec fn index_map(nodes: Seq<NodeView>) -> Map<u64, usize>
    decreases nodes.len(),
{
    if nodes.len() == 0 {
        Map::empty()
    } else {
        index_map(nodes.drop_last()).insert(nodes.last().id, (nodes.len() - 1) as usize)
    }
}

/// A node whose layers are complete and whose neighbors are among `n` nodes.
pub open spec fn node_wf(node: NodeView, n: nat) -> bool {
    &&& node.neighbors.len() == node.max_layer + 1
    &&& forall|l: int, j: int|
        0 <= l < node.neighbors.len() && 0 <= j < node.neighbors[l].len() ==> (
        #[trigger] node.neighbors[l][j]) < n
}

impl GraphView {
    /// The structural invariants of the graph.
    pub open spec fn wf(self) -> bool {
        &&& self.vectors.len() == self.dim * self.num_vectors
        &&& self.nodes.len() <= u32::MAX
        &&& forall|i: int| 0 <= i < self.nodes.len() ==> node_wf(#[trigger] self.nodes[i], self.nodes.len())
        &&& forall|i: int| 0 <= i < self.nodes.len() ==> #[trigger] self.nodes[i].vector_idx < self.num_vectors
        &&& self.id_to_index == index_map(self.nodes)
        &&& (self.entry_point matches Some(ep) ==> ep < self.nodes.len())
    }
}

/// The message of the error for inserting an ID the graph already holds.
pub open spec fn duplicate_node_message(id: u64) -> Seq<char> {
    "HnswGraph::insert: duplicate id "@ + decimal(id as nat)
}

pub proof fn lemma_index_map_push(nodes: Seq<NodeView>, node: NodeView)
    ensures
        index_map(nodes.push(node)) == index_map(nodes).insert(node.id, nodes.len() as usize),
{
    assert(nodes.push(node).drop_last() =~= nodes);
}

pub proof fn lemma_index_map_ids(nodes: Seq<NodeView>, id: u64)
    requires
        nodes.len() <= usize::MAX,
    ensures
        index_map(nodes).contains_key(id) <==> exists|i: int| 0 <= i < nodes.len() && nodes[i].id == id,
        index_map(nodes).contains_key(id) ==> index_map(nodes)[id] < nodes.len() && nodes[index_map(nodes)[id] as int].id == id,
    decreases nodes.len(),
{
    if nodes.len() > 0 {
        lemma_index_map_ids(nodes.drop_last(), id);
        let m0 = index_map(nodes.drop_last());
        if nodes.last().id != id && m0.contains_key(id) {
            assert(index_map(nodes)[id] == m0[id]);
            assert(nodes.drop_last()[m0[id] as int] == nodes[m0[id] as int]);
        }
        if exists|i: int| 0 <= i < nodes.len() && nodes[i].id == id {
            let i = choose|i: int| 0 <= i < nodes.len() && nodes[i].id == id;
            if i < nodes.len() - 1 {
                assert(nodes.drop_last()[i].id == id);
            }
        }
        if exists|i: int| 0 <= i < nodes.len() - 1 && nodes.drop_last()[i].id == id {
            let i = choose|i: int| 0 <= i < nodes.len() - 1 && nodes.drop_last()[i].id == id;
            assert(nodes[i].id == id);
        }
    }
}

/// The message-free reasons an adjacency update is refused are all excluded
/// by preconditions; these are the graph operations.
impl HnswGraph {
    /// Create a new, empty graph.
    pub fn new(dim: usize, metric: Metric) -> (g: Self)
        ensures
            g@.wf(),
            g@.nodes == Seq::<NodeView>::empty(),
            g@.vectors == Seq::<u32>::empty(),
            g@.num_vectors == 0,
            g@.entry_point is None,
            g@.dim == dim,
            g@.metric == metric,
            g.vectors.dim == dim,
    {
        let g = HnswGraph {
            nodes: Vec::new(),
            id_to_index: HashMap::new(),
            vectors: VectorBatch::new(dim),
            entry_point: None,
            dim,
            metric,
        };
        proof {
            assert(g@.nodes =~= Seq::<NodeView>::empty());
            assert(g@.id_to_index =~= index_map(g@.nodes));
        }
        g
    }

    /// The vector store agrees with the graph's dimension and all invariants hold.
    pub open spec fn wf(&self) -> bool {
        &&& self@.wf()
        &&& self.vectors.dim == self.dim
    }

    /// Number of nodes.
    pub fn len(&self) -> (n: usize)
        ensures
            n == self@.nodes.len(),
    {
        self.nodes.len()
    }

    /// Returns `true` if the graph has no nodes.
    pub fn is_empty(&self) -> (b: bool)
        ensures
            b == (self@.nodes.len() == 0),
    {
        self.nodes.len() == 0
    }

    /// Dimensionality of the vectors.
    pub fn dim(&self) -> (d: usize)
        ensures
            d == self.dim,
    {
        self.dim
    }

    /// Metric of the graph.
    pub fn metric(&self) -> (m: Metric)
        ensures
            m == self.metric,
    {
        self.metric
    }

    /// Internal index of the entry point, if any.
    pub fn entry_point(&self) -> (e: Option<usize>)
        ensures
            e == self.entry_point,
    {
        self.entry_point
    }

    /// Coordinates of the vector of node `internal_idx`.
    pub fn get_vector(&self, internal_idx: usize) -> (v: &[u32])
        requires
            self.wf(),
            internal_idx < self@.nodes.len(),
        ensures
            v@ == self.vectors.row(self@.nodes[internal_idx as int].vector_idx as int),
    {
        let vec_idx = self.nodes[internal_idx].vector_idx;
        assert(self@.nodes[internal_idx as int].vector_idx == vec_idx);
        self.vectors.get(vec_idx)
    }

    /// Neighbors of node `internal_idx` at `layer`; empty above the node's
    /// top layer.
    pub fn get_neighbors(&self, internal_idx: usize, layer: usize) -> (nbrs: &[u32])
        requires
            internal_idx < self@.nodes.len(),
        ensures
            ({
                let node = self@.nodes[internal_idx as int];
                if layer <= node.max_layer && layer < node.neighbors.len() {
                    nbrs@ == node.neighbors[layer as int]
                } else {
                    nbrs@ == Seq::<u32>::empty()
                }
            }),
    {
        let node = &self.nodes[internal_idx];
        assert(self@.nodes[internal_idx as int] == node@);
        if layer <= node.max_layer && layer < node.neighbors.len() {
            assert(node@.neighbors[layer as int] == node.neighbors@[layer as int]@);
            node.neighbors[layer].as_slice()
        } else {
            let empty: &[u32] = &[];
            assert(empty@ =~= Seq::<u32>::empty());
            empty
        }
    }

    /// How many nodes have each top layer; layers that no node tops out at
    /// are absent.
    pub fn max_layer_distribution(&self) -> (dist: HashMap<usize, usize>)
        ensures
            forall|l: usize| #[trigger] dist@.contains_key(l) <==> layer_count(self@.nodes, l as nat, self@.nodes.len() as int) > 0,
            forall|l: usize| #[trigger] dist@.contains_key(l) ==> dist@[l] == layer_count(self@.nodes, l as nat, self@.nodes.len() as int),
    {
        let ghost nodes = self@.nodes;
        let mut dist: HashMap<usize, usize> = HashMap::new();
        let mut i: usize = 0;
        while i < self.nodes.len()
            invariant
                nodes == self@.nodes,
                i <= nodes.len(),
                forall|l: usize| #[trigger] dist@.contains_key(l) <==> layer_count(nodes, l as nat, i as int) > 0,
                forall|l: usize| #[trigger] dist@.contains_key(l) ==> dist@[l] == layer_count(nodes, l as nat, i as int),
            decreases nodes.len() - i,
        {
            let layer = self.nodes[i].max_layer;
            proof {
                lemma_layer_count_bound(nodes, layer as nat, i as int);
                assert(nodes[i as int].max_layer == layer);
            }
            let before = match dist.get(&layer) {
                Some(c) => *c,
                None => 0,
            };
            dist.insert(layer, before + 1);
            i = i + 1;
        }
        dist
    }

    /// Internal index of the node with external `id`, if present.
    pub fn internal_index_of(&self, id: u64) -> (r: Option<usize>)
        ensures
            r == (if self@.id_to_index.contains_key(id) {
                Some(self@.id_to_index[id])
            } else {
                None::<usize>
            }),
    {
        match self.id_to_index.get(&id) {
            Some(i) => Some(*i),
            None => None,
        }
    }
}

/// `layers` empty adjacency lists.
fn empty_layers(layers: usize) -> (v: Vec<Vec<u32>>)
    ensures
        v@.map_values(|l: Vec<u32>| l@) == Seq::new(layers as nat, |i: int| Seq::<u32>::empty()),
{
    let mut v: Vec<Vec<u32>> = Vec::new();
    let mut i: usize = 0;
    while i < layers
        invariant
            i <= layers,
            v@.map_values(|l: Vec<u32>| l@) =~= Seq::new(i as nat, |j: int| Seq::<u32>::empty()),
        decreases layers - i,
    {
        let e: Vec<u32> = Vec::new();
        let ghost before = v@;
        v.push(e);
        proof {
            assert(v@ =~= before.push(e));
            assert(v@.map_values(|l: Vec<u32>| l@) =~= before.map_values(|l: Vec<u32>| l@).push(e@));
        }
        i = i + 1;
    }
    v
}

/// The node a fresh insertion adds.
pub open spec fn fresh_node(id: u64, vector_idx: nat, max_layer: nat) -> NodeView {
    NodeView {
        id,
        vector_idx,
        max_layer,
        neighbors: Seq::new(max_layer + 1, |i: int| Seq::<u32>::empty()),
    }
}

/// Select up to `m` neighbors from scored candidates: the `m` closest by
/// distance in the order of `f32::total_cmp`, nearest first, earlier
/// candidates first among equal distances.
/// Returns the internal indices carried in the candidates' `id` fields.
pub fn select_neighbors(candidates: &[ScoredId], m: usize) -> (selected: Vec<usize>)
    ensures
        exists|r: Seq<ScoredId>, p: Seq<int>|
            is_top_k_total(candidates@, candidates@.len() as int, m as nat, r, p) && selected@
                == r.map_values(|s: ScoredId| s.id as usize),
{
    let best = top_k_total(candidates, m);
    let mut out: Vec<usize> = Vec::new();
    let mut i: usize = 0;
    while i < best.len()
        invariant
            i <= best@.len(),
            out@ =~= best@.subrange(0, i as int).map_values(|s: ScoredId| s.id as usize),
        decreases best@.len() - i,
    {
        out.push(best[i].id as usize);
        i = i + 1;
    }
    assert(out@ =~= best@.map_values(|s: ScoredId| s.id as usize));
    out
}

impl HnswGraph {
    /// Refuse an ID the graph already holds, as an insertion does before
    /// anything else.
    pub fn check_new_id(&self, id: u64) -> (res: Result<(), String>)
        ensures
            res is Err <==> self@.id_to_index.contains_key(id),
            res matches Err(msg) ==> msg@ == duplicate_node_message(id),
    {
        if self.id_to_index.contains_key(&id) {
            let mut msg = String::from_str("HnswGraph::insert: duplicate id ");
            let s = decimal_string(id);
            msg.append(s.as_str());
            return Err(msg);
        }
        Ok(())
    }

    /// Add a node with external `id`, vector `vector` and top layer
    /// `max_layer`, with empty adjacency lists; an empty graph gets it as
    /// entry point. Refused, with the graph unchanged, if `id` is present.
    pub fn add_node(&mut self, id: u64, vector: &[u32], max_layer: usize) -> (res: Result<usize, String>)
        requires
            old(self).wf(),
            vector@.len() == old(self).dim,
            old(self)@.nodes.len() < u32::MAX,
            old(self).vectors.num_vectors < usize::MAX,
            max_layer < usize::MAX,
        ensures
            final(self).wf(),
            old(self)@.id_to_index.contains_key(id) ==> res is Err && final(self)@ == old(self)@,
            res matches Err(msg) ==> msg@ == duplicate_node_message(id),
            !old(self)@.id_to_index.contains_key(id) ==> (res matches Ok(idx) && idx == old(self)@.nodes.len()
                && final(self)@ == (GraphView {
                    nodes: old(self)@.nodes.push(fresh_node(id, old(self)@.num_vectors, max_layer as nat)),
                    id_to_index: old(self)@.id_to_index.insert(id, idx),
                    vectors: old(self)@.vectors + vector@,
                    num_vectors: old(self)@.num_vectors + 1,
                    entry_point: if old(self)@.nodes.len() == 0 { Some(idx) } else { old(self)@.entry_point },
                    ..old(self)@
                })),
    {
        if self.id_to_index.contains_key(&id) {
            let mut msg = String::from_str("HnswGraph::insert: duplicate id ");
            let s = decimal_string(id);
            msg.append(s.as_str());
            return Err(msg);
        }
        let vector_idx = self.vectors.num_vectors;
        self.vectors.push(vector);
        let idx = self.nodes.len();
        let was_empty = idx == 0;
        let neighbors = empty_layers(max_layer + 1);
        let node = HnswNode { id, vector_idx, max_layer, neighbors };
        let ghost old_nodes = self@.nodes;
        self.nodes.push(node);
        self.id_to_index.insert(id, idx);
        if was_empty {
            self.entry_point = Some(idx);
        }
        proof {
            assert(node@ == fresh_node(id, vector_idx as nat, max_layer as nat));
            assert(self@.nodes =~= old_nodes.push(node@));
            lemma_index_map_push(old_nodes, node@);
            let n = self@.nodes.len();
            assert forall|i: int| 0 <= i < n implies node_wf(#[trigger] self@.nodes[i], n) by {
                if i < n - 1 {
                    assert(self@.nodes[i] == old_nodes[i]);
                    assert(node_wf(old_nodes[i], (n - 1) as nat));
                }
            }
            assert forall|i: int| 0 <= i < n implies #[trigger] self@.nodes[i].vector_idx < self@.num_vectors by {
                if i < n - 1 {
                    assert(self@.nodes[i] == old_nodes[i]);
                }
            }
        }
        Ok(idx)
    }

    /// Add the edge `from -> to` at `layer` unless it is already there.
    /// Returns whether the edge was added.
    pub fn add_edge(&mut self, from: usize, layer: usize, to: u32) -> (added: bool)
        requires
            old(self).wf(),
            from < old(self)@.nodes.len(),
            layer <= old(self)@.nodes[from as int].max_layer,
            to < old(self)@.nodes.len(),
        ensures
            final(self).wf(),
            added == !old(self)@.nodes[from as int].neighbors[layer as int].contains(to),
            final(self)@ == (GraphView {
                nodes: old(self)@.nodes.update(from as int, NodeView {
                    neighbors: old(self)@.nodes[from as int].neighbors.update(layer as int,
                        if added { old(self)@.nodes[from as int].neighbors[layer as int].push(to) }
                        else { old(self)@.nodes[from as int].neighbors[layer as int] }),
                    ..old(self)@.nodes[from as int]
                }),
                ..old(self)@
            }),
    {
        let ghost g0 = self@;
        assert(self.nodes@[from as int]@ == g0.nodes[from as int]);
        assert(self.nodes@[from as int].neighbors@[layer as int]@ == g0.nodes[from as int].neighbors[layer as int]);
        let present = position_of_u32(self.nodes[from].neighbors[layer].as_slice(), to);
        if present {
            proof {
                let nd = g0.nodes[from as int];
                assert(nd.neighbors.update(layer as int, nd.neighbors[layer as int]) =~= nd.neighbors);
                assert(g0.nodes.update(from as int, NodeView { neighbors: nd.neighbors.update(layer as int, nd.neighbors[layer as int]), ..nd }) =~= g0.nodes);
            }
            return false;
        }
        let mut list = self.nodes[from].neighbors[layer].clone();
        assert(list@ =~= g0.nodes[from as int].neighbors[layer as int]);
        list.push(to);
        self.set_list(from, layer, list);
        true
    }

    /// Replace the neighbors of `node` at `layer` (after pruning).
    pub fn set_neighbors(&mut self, node: usize, layer: usize, list: Vec<u32>)
        requires
            old(self).wf(),
            node < old(self)@.nodes.len(),
            layer <= old(self)@.nodes[node as int].max_layer,
            forall|j: int| 0 <= j < list@.len() ==> #[trigger] list@[j] < old(self)@.nodes.len(),
        ensures
            final(self).wf(),
            final(self)@ == (GraphView {
                nodes: old(self)@.nodes.update(node as int, NodeView {
                    neighbors: old(self)@.nodes[node as int].neighbors.update(layer as int, list@),
                    ..old(self)@.nodes[node as int]
                }),
                ..old(self)@
            }),
    {
        self.set_list(node, layer, list);
    }

    fn set_list(&mut self, node: usize, layer: usize, list: Vec<u32>)
        requires
            old(self).wf(),
            node < old(self)@.nodes.len(),
            layer <= old(self)@.nodes[node as int].max_layer,
            forall|j: int| 0 <= j < list@.len() ==> #[trigger] list@[j] < old(self)@.nodes.len(),
        ensures
            final(self).wf(),
            final(self)@ == (GraphView {
                nodes: old(self)@.nodes.update(node as int, NodeView {
                    neighbors: old(self)@.nodes[node as int].neighbors.update(layer as int, list@),
                    ..old(self)@.nodes[node as int]
                }),
                ..old(self)@
            }),
    {
        let ghost g0 = self@;
        let ghost list_view = list@;
        let old_node = self.nodes.remove(node);
        let ghost n0 = old_node@;
        let HnswNode { id, vector_idx, max_layer, neighbors } = old_node;
        let mut lists = neighbors;
        lists.set(layer, list);
        let n = HnswNode { id, vector_idx, max_layer, neighbors: lists };
        self.nodes.insert(node, n);
        proof {
            assert(n@.neighbors =~= n0.neighbors.update(layer as int, list_view));
            let new_node = NodeView { neighbors: g0.nodes[node as int].neighbors.update(layer as int, list_view), ..g0.nodes[node as int] };
            assert(self@.nodes =~= g0.nodes.update(node as int, new_node));
            let len = g0.nodes.len();
            assert forall|i: int| 0 <= i < len implies node_wf(#[trigger] self@.nodes[i], len) by {
                if i != node {
                    assert(self@.nodes[i] == g0.nodes[i]);
                } else {
                    assert forall|l: int, j: int|
                        0 <= l < new_node.neighbors.len() && 0 <= j < new_node.neighbors[l].len() implies (
                        #[trigger] new_node.neighbors[l][j]) < len by {
                        if l != layer {
                            assert(new_node.neighbors[l] == g0.nodes[i].neighbors[l]);
                        }
                    }
                }
            }
            assert forall|i: int| 0 <= i < len implies #[trigger] self@.nodes[i].vector_idx < self@.num_vectors by {
                if i != node {
                    assert(self@.nodes[i] == g0.nodes[i]);
                }
            }
            assert(index_map(self@.nodes) =~= index_map(g0.nodes)) by {
                lemma_index_map_same_ids(g0.nodes, self@.nodes);
            }
        }
    }

    /// After node `node` was connected: make it the entry point if its top
    /// layer is above the current entry point's.
    pub fn raise_entry_point(&mut self, node: usize)
        requires
            old(self).wf(),
            node < old(self)@.nodes.len(),
        ensures
            final(self).wf(),
            final(self)@ == (GraphView {
                entry_point: match old(self)@.entry_point {
                    Some(ep) => if old(self)@.nodes[node as int].max_layer > old(self)@.nodes[ep as int].max_layer {
                        Some(node)
                    } else {
                        Some(ep)
                    },
                    None => Some(node),
                },
                ..old(self)@
            }),
    {
        match self.entry_point {
            Some(ep) => {
                if self.nodes[node].max_layer > self.nodes[ep].max_layer {
                    self.entry_point = Some(node);
                }
            },
            None => {
                self.entry_point = Some(node);
            },
        }
    }
}

/// Index maps agree for node sequences carrying the same IDs.
pub proof fn lemma_index_map_same_ids(a: Seq<NodeView>, b: Seq<NodeView>)
    requires
        a.len() == b.len(),
        forall|i: int| 0 <= i < a.len() ==> #[trigger] a[i].id == b[i].id,
    ensures
        index_map(a) == index_map(b),
    decreases a.len(),
{
    if a.len() > 0 {
        lemma_index_map_same_ids(a.drop_last(), b.drop_last());
        assert(a.last().id == b.last().id);
    }
}

/// Whether `x` occurs in `xs`.
pub fn position_of_u32(xs: &[u32], x: u32) -> (found: bool)
    ensures
        found == xs@.contains(x),
{
    let mut i: usize = 0;
    while i < xs.len()
        invariant
            i <= xs@.len(),
            forall|j: int| 0 <= j < i ==> xs@[j] != x,
        decreases xs@.len() - i,
    {
        if xs[i] == x {
            return true;
        }
        i = i + 1;
    }
    false
}

} // verus!
