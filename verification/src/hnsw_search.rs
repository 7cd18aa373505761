//! A query of an HNSW graph, as a state machine.
//!
//! The search starts at the entry point and descends greedily, keeping one
//! node per layer, from the entry point's top layer down to layer 1; it then
//! searches layer 0 with a beam of `ef_search` nodes. The layer searches and
//! the similarity scores are float computations that the caller performs
//! when asked; the descent, the choice of each next entry point and the
//! final ranking are decided here.

use vstd::prelude::*;
use crate::flat_index::ranked_by_metric;
use crate::hnsw::HnswGraph;
use crate::metric::Metric;
use crate::topk::{ScoredId, top_k_largest, top_k_smallest};

verus! {

/// What a query needs next.
#[derive(Debug, Clone, Copy, PartialEq, Eq, Structural)]
pub enum SearchStep {
    /// Search `layer` from the query's entry points, keeping `ef` nodes, and
    /// hand the result to `found`.
    Layer { layer: usize, ef: usize },
    /// The layer-0 candidates are in; score and rank them.
    Done,
}

/// The state of a query.
pub struct GraphSearch {
    /// The layer to search next.
    pub layer: usize,
    /// Beam width of the layer-0 search.
    pub ef_search: usize,
    /// Where the next layer search starts.
    pub eps: Vec<usize>,
    /// Layer 0 has been searched.
    pub finished: bool,
    /// The layer-0 candidates (internal indices), once finished.
    pub found: Vec<ScoredId>,
}

impl GraphSearch {
    /// Start a query of `graph` for `k` results: there is nothing to search
    /// in an empty graph or for `k == 0` or `ef_search == 0`; otherwise the
    /// search starts at the entry point, on its top layer.
    pub fn begin(graph: &HnswGraph, k: usize, ef_search: usize) -> (s: Option<GraphSearch>)
        requires
            graph.wf(),
            graph@.nodes.len() > 0 ==> graph@.entry_point is Some,
        ensures
            s is None <==> graph@.nodes.len() == 0 || k == 0 || ef_search == 0,
            s matches Some(s) ==> ({
                let ep = graph@.entry_point->0;
                &&& s.layer == graph@.nodes[ep as int].max_layer
                &&& s.eps@ == seq![ep]
                &&& !s.finished
                &&& s.ef_search == ef_search
                &&& s.found@ == Seq::<ScoredId>::empty()
            }),
    {
        if graph.is_empty() || k == 0 || ef_search == 0 {
            return None;
        }
        let ep = match graph.entry_point() {
            Some(ep) => ep,
            None => {
                return None;
            },
        };
        let layer = graph.nodes[ep].max_layer;
        proof {
            assert(graph@.nodes[ep as int] == graph.nodes@[ep as int]@);
        }
        let mut eps: Vec<usize> = Vec::new();
        eps.push(ep);
        Some(GraphSearch { layer, ef_search, eps, finished: false, found: Vec::new() })
    }

    /// What the query needs next: one-node searches above layer 0, then a
    /// search of layer 0 with the full beam, then nothing.
    pub open spec fn step_of(&self) -> SearchStep {
        if self.finished {
            SearchStep::Done
        } else if self.layer > 0 {
            SearchStep::Layer { layer: self.layer, ef: 1 }
        } else {
            SearchStep::Layer { layer: 0, ef: self.ef_search }
        }
    }

    /// What the query needs next.
    pub fn next(&self) -> (s: SearchStep)
        ensures
            s == self.step_of(),
    {
        if self.finished {
            SearchStep::Done
        } else if self.layer > 0 {
            SearchStep::Layer { layer: self.layer, ef: 1 }
        } else {
            SearchStep::Layer { layer: 0, ef: self.ef_search }
        }
    }

    /// Where the next layer search starts.
    pub fn entry_points(&self) -> (eps: &[usize])
        ensures
            eps@ == self.eps@,
    {
        self.eps.as_slice()
    }

    /// Hand over the result of the layer search asked for, nearest first
    /// (node `id`s are internal indices). Above layer 0 the nearest result
    /// becomes the only entry point of the next layer down (the entry points
    /// stay when nothing was found); the result of layer 0 is kept and ends
    /// the descent.
    pub fn found(&mut self, results: &[ScoredId])
        requires
            !old(self).finished,
        ensures
            final(self).ef_search == old(self).ef_search,
            old(self).layer > 0 ==> {
                &&& !final(self).finished
                &&& final(self).layer == old(self).layer - 1
                &&& final(self).eps@ == (if results@.len() > 0 {
                    seq![results@[0].id as usize]
                } else {
                    old(self).eps@
                })
                &&& final(self).found@ == old(self).found@
            },
            old(self).layer == 0 ==> {
                &&& final(self).finished
                &&& final(self).layer == 0
                &&& final(self).eps@ == old(self).eps@
                &&& final(self).found@ == results@
            },
    {
        if self.layer > 0 {
            if results.len() > 0 {
                let mut eps: Vec<usize> = Vec::new();
                eps.push(results[0].id as usize);
                self.eps = eps;
            }
            self.layer = self.layer - 1;
        } else {
            let mut kept: Vec<ScoredId> = Vec::new();
            let mut i: usize = 0;
            while i < results.len()
                invariant
                    i <= results@.len(),
                    kept@ == results@.take(i as int),
                decreases results@.len() - i,
            {
                kept.push(results[i]);
                i = i + 1;
                proof {
                    assert(kept@ =~= results@.take(i as int));
                }
            }
            proof {
                assert(results@.take(results@.len() as int) =~= results@);
            }
            self.found = kept;
            self.finished = true;
        }
    }

    /// The layer-0 candidates.
    pub fn candidates(&self) -> (c: &[ScoredId])
        ensures
            c@ == self.found@,
    {
        self.found.as_slice()
    }
}

/// The external ID of each candidate node.
pub fn external_ids(graph: &HnswGraph, found: &[ScoredId]) -> (ids: Vec<u64>)
    requires
        forall|i: int| 0 <= i < found@.len() ==> (#[trigger] found@[i]).id < graph@.nodes.len(),
    ensures
        ids@.len() == found@.len(),
        forall|i: int| 0 <= i < found@.len() ==> #[trigger] ids@[i] == graph@.nodes[found@[i].id as int].id,
{
    let mut ids: Vec<u64> = Vec::new();
    let mut i: usize = 0;
    while i < found.len()
        invariant
            i <= found@.len(),
            ids@.len() == i,
            forall|j: int| 0 <= j < found@.len() ==> (#[trigger] found@[j]).id < graph@.nodes.len(),
            forall|j: int| 0 <= j < i ==> #[trigger] ids@[j] == graph@.nodes[found@[j].id as int].id,
        decreases found@.len() - i,
    {
        let total = graph.len();
        let n = found[i].id as usize;
        proof {
            assert(found@[i as int].id < graph@.nodes.len());
            assert(total == graph@.nodes.len());
            assert(n as int == found@[i as int].id as int);
            assert(graph@.nodes[n as int] == graph.nodes@[n as int]@);
        }
        ids.push(graph.nodes[n].id);
        proof {
            assert(ids@[i as int] == graph@.nodes[found@[i as int].id as int].id);
        }
        i = i + 1;
    }
    ids
}

/// Rank scored results for `metric`: the `k` smallest distances for
/// Euclidean, the `k` largest similarities otherwise.
pub fn rank_for_metric(metric: Metric, candidates: &[ScoredId], k: usize) -> (result: Vec<ScoredId>)
    ensures
        ranked_by_metric(metric, candidates@, k as nat, result@),
{
    match metric {
        Metric::Euclidean => top_k_smallest(candidates, k),
        _ => top_k_largest(candidates, k),
    }
}

} // verus!
