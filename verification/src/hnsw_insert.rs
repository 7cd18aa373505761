//! Insertion of a node into an HNSW graph, as a state machine.
//!
//! The new node is stored first. Above its top layer the insertion descends
//! greedily (a search keeping one node per layer); from the lower of its top
//! layer and the entry point's down to layer 0 it searches each layer,
//! links the new node to the selected neighbors in both directions, and
//! prunes neighbor lists that grew past their capacity. The searches and the
//! distances used to prune are float computations that the caller performs
//! when asked; every other decision is made here.

use vstd::prelude::*;
use crate::hnsw::{GraphView, HnswConfig, HnswGraph, NodeView, fresh_node, node_wf, select_neighbors};
use crate::topk::{ScoredId, is_top_k_total};

verus! {

/// The results without the new node.
pub open spec fn without(results: Seq<ScoredId>, node: usize) -> Seq<ScoredId>
    decreases results.len(),
{
    if results.len() == 0 {
        Seq::empty()
    } else if results.last().id == node as u64 {
        without(results.drop_last(), node)
    } else {
        without(results.drop_last(), node).push(results.last())
    }
}

/// Every entry of `without` is an entry of the results other than the node.
proof fn lemma_without(results: Seq<ScoredId>, node: usize)
    ensures
        forall|i: int| 0 <= i < without(results, node).len() ==> results.contains(#[trigger] without(results, node)[i])
            && without(results, node)[i].id != node as u64,
    decreases results.len(),
{
    if results.len() > 0 {
        lemma_without(results.drop_last(), node);
        let w = without(results.drop_last(), node);
        assert forall|i: int| 0 <= i < without(results, node).len() implies results.contains(#[trigger] without(results, node)[i])
            && without(results, node)[i].id != node as u64 by {
            if i < w.len() {
                assert(without(results, node)[i] == w[i]);
                let k = choose|k: int| 0 <= k < results.drop_last().len() && results.drop_last()[k] == w[i];
                assert(results[k] == w[i]);
            } else {
                assert(results[results.len() - 1] == results.last());
            }
        }
    }
}

/// `list` with `node` appended, unless it holds `node` already.
pub open spec fn linked(list: Seq<u32>, node: u32) -> Seq<u32> {
    if list.contains(node) {
        list
    } else {
        list.push(node)
    }
}

/// The node with its list at `layer` replaced by `list`.
pub open spec fn with_list(n: NodeView, layer: int, list: Seq<u32>) -> NodeView {
    NodeView { neighbors: n.neighbors.update(layer, list), ..n }
}

/// The nodes of `g` once `node`'s list at `layer` is `list` and each node of
/// `list` links back to `node` at that layer.
pub open spec fn linked_nodes(g: GraphView, node: usize, layer: int, list: Seq<u32>) -> Seq<NodeView> {
    Seq::new(
        g.nodes.len(),
        |i: int|
            if i == node as int {
                with_list(g.nodes[i], layer, list)
            } else if list.contains(i as u32) {
                with_list(g.nodes[i], layer, linked(g.nodes[i].neighbors[layer], node as u32))
            } else {
                g.nodes[i]
            },
    )
}

/// The entry point once `node` is inserted: `node` when the graph had none
/// or when `node` tops out above it.
pub open spec fn raised(g: GraphView, node: usize) -> Option<usize> {
    match g.entry_point {
        Some(ep) => if g.nodes[node as int].max_layer > g.nodes[ep as int].max_layer {
            Some(node)
        } else {
            Some(ep)
        },
        None => Some(node),
    }
}

/// What an insertion needs next.
#[derive(Debug, Clone, Copy, PartialEq, Eq, Structural)]
pub enum InsertStep {
    /// Search `layer` from the insertion's entry points, keeping `ef` nodes,
    /// and hand the result to `found`.
    Search { layer: usize, ef: usize },
    /// Score the neighbors of `node` at `layer` by their distance to `node`
    /// and hand the distances to `pruned`.
    Prune { node: usize, layer: usize },
    /// The insertion is complete.
    Done,
}

/// The state of an insertion.
pub struct Insertion {
    /// Internal index of the new node.
    pub new_idx: usize,
    /// Top layer of the new node.
    pub level: usize,
    /// Top layer of the entry point when the insertion began.
    pub top: usize,
    /// The layer being worked on.
    pub layer: usize,
    /// Still descending above the new node's top layer.
    pub descending: bool,
    /// The current layer has been searched and linked; prunes may remain.
    pub searched: bool,
    /// The insertion is complete.
    pub finished: bool,
    /// Where the next search starts.
    pub eps: Vec<usize>,
    /// Where the search of the next lower layer starts.
    pub next_eps: Vec<usize>,
    /// Nodes whose list at the current layer outgrew its capacity.
    pub queue: Vec<usize>,
    /// Links per node above layer 0 (twice as many at layer 0).
    pub m: usize,
    /// Beam width of the linking searches.
    pub ef_construction: usize,
}

/// Capacity of a neighbor list at `layer`.
pub open spec fn capacity(m: nat, layer: nat) -> nat {
    if layer == 0 {
        2 * m
    } else {
        m
    }
}

/// Every neighbor list holds at most its layer's capacity, except the lists
/// at `layer` of the nodes in `queue`.
pub open spec fn capped_except(g: GraphView, m: nat, layer: int, queue: Seq<usize>) -> bool {
    forall|i: int, l: int|
        0 <= i < g.nodes.len() && 0 <= l < g.nodes[i].neighbors.len() && !(l == layer && queue.contains(
            i as usize,
        )) ==> #[trigger] g.nodes[i].neighbors[l].len() <= capacity(m, l as nat)
}

/// Every neighbor list holds at most its layer's capacity.
pub open spec fn capped(g: GraphView, m: nat) -> bool {
    capped_except(g, m, -1, Seq::empty())
}

/// Node `i`'s vector is row `i` of the store, which holds one row per node:
/// the layout that adding nodes one by one produces.
pub open spec fn rows_in_order(g: GraphView) -> bool {
    &&& g.num_vectors == g.nodes.len()
    &&& forall|i: int| 0 <= i < g.nodes.len() ==> (#[trigger] g.nodes[i]).vector_idx == i
}

/// Every neighbor a node lists at a layer reaches that layer.
pub open spec fn layered(g: GraphView) -> bool {
    forall|i: int, l: int, t: int|
        0 <= i < g.nodes.len() && 0 <= l < g.nodes[i].neighbors.len() && 0 <= t < g.nodes[i].neighbors[l].len()
            ==> g.nodes[#[trigger] g.nodes[i].neighbors[l][t] as int].max_layer >= l
}

/// The entry point reaches as high as any node other than `skip`.
pub open spec fn tops_but(g: GraphView, skip: int) -> bool {
    g.entry_point matches Some(ep) && forall|i: int|
        0 <= i < g.nodes.len() && i != skip ==> (#[trigger] g.nodes[i]).max_layer <= g.nodes[ep as int].max_layer
}

/// The invariant of a graph between insertions: well formed, rows in node
/// order, neighbors that reach the layer they are listed at, lists within
/// capacity, and an entry point, present exactly when there are nodes, that
/// reaches as high as any node.
pub open spec fn sound(g: GraphView, m: nat) -> bool {
    &&& g.wf()
    &&& rows_in_order(g)
    &&& layered(g)
    &&& capped(g, m)
    &&& (g.entry_point is None <==> g.nodes.len() == 0)
    &&& (g.nodes.len() > 0 ==> tops_but(g, -1))
}

impl Insertion {
    /// The invariant of a graph during this insertion: that of [`sound`],
    /// but for the lists queued for pruning and, until the insertion is
    /// finished, for the new node, which may top out above the entry point.
    pub open spec fn sound_in(&self, g: GraphView) -> bool {
        &&& g.wf()
        &&& rows_in_order(g)
        &&& layered(g)
        &&& self.keeps_capacity(g)
        &&& g.nodes.len() > 0
        &&& tops_but(g, if self.finished { -1 } else { self.new_idx as int })
        &&& self.finished ==> self.queue@.len() == 0
    }

    /// The state fits the graph: the new node and every queued or entry node
    /// exist, the current layer is within the new node's layers while
    /// linking, and queued nodes reach the current layer.
    pub open spec fn fits(&self, g: GraphView) -> bool {
        &&& self.new_idx < g.nodes.len()
        &&& g.nodes[self.new_idx as int].max_layer == self.level
        &&& 2 * self.m <= usize::MAX
        &&& forall|i: int| 0 <= i < self.eps@.len() ==> #[trigger] self.eps@[i] < g.nodes.len()
        &&& forall|i: int| 0 <= i < self.next_eps@.len() ==> #[trigger] self.next_eps@[i] < g.nodes.len()
        &&& forall|i: int|
            0 <= i < self.queue@.len() ==> #[trigger] self.queue@[i] < g.nodes.len() && self.layer
                <= g.nodes[self.queue@[i] as int].max_layer
        &&& !self.finished && self.descending ==> self.layer > self.level && !self.searched
            && self.queue@.len() == 0
        &&& !self.finished && !self.descending ==> self.layer <= self.level
        &&& !self.searched ==> self.queue@.len() == 0
        &&& self.finished ==> !self.searched
        &&& self.settled()
    }

    /// The lists of the graph keep their capacity, but for the queued
    /// nodes at the current layer.
    pub open spec fn keeps_capacity(&self, g: GraphView) -> bool {
        capped_except(g, self.m as nat, self.layer as int, self.queue@)
    }

    /// A linked layer with nothing left to prune has been left behind.
    pub open spec fn settled(&self) -> bool {
        !self.finished && !self.descending && self.searched ==> self.queue@.len() > 0
    }

    /// Searches still to run.
    pub open spec fn searches_left(&self) -> nat {
        if self.finished {
            0
        } else if self.searched {
            self.layer as nat
        } else {
            (self.layer + 1) as nat
        }
    }

    /// What the insertion needs next: nothing once finished; a one-node
    /// search while descending; while linking, the queued prunes and then
    /// the search of the current layer.
    pub open spec fn step_of(&self) -> InsertStep {
        if self.finished {
            InsertStep::Done
        } else if self.descending {
            InsertStep::Search { layer: self.layer, ef: 1 }
        } else if self.searched && self.queue@.len() > 0 {
            InsertStep::Prune { node: self.queue@.last(), layer: self.layer }
        } else {
            InsertStep::Search { layer: self.layer, ef: self.ef_construction }
        }
    }

    /// What the insertion needs next.
    pub fn next(&self) -> (s: InsertStep)
        requires
            self.settled(),
        ensures
            s == self.step_of(),
    {
        if self.finished {
            InsertStep::Done
        } else if self.descending {
            InsertStep::Search { layer: self.layer, ef: 1 }
        } else if self.searched && self.queue.len() > 0 {
            InsertStep::Prune { node: self.queue[self.queue.len() - 1], layer: self.layer }
        } else {
            InsertStep::Search { layer: self.layer, ef: self.ef_construction }
        }
    }

    /// Where the next search starts.
    pub fn entry_points(&self) -> (eps: &[usize])
        ensures
            eps@ == self.eps@,
    {
        self.eps.as_slice()
    }
    /// Store the new node (refused, with the graph unchanged, when its ID is
    /// taken) and start its insertion: nothing more to do in a graph that
    /// was empty; otherwise the work starts at the entry point's top layer,
    /// descending first when that is above the new node's top layer.
    pub fn begin(graph: &mut HnswGraph, id: u64, vector: &[u32], level: usize, config: &HnswConfig) -> (res: Result<
        Insertion,
        String,
    >)
        requires
            old(graph).wf(),
            vector@.len() == old(graph).dim,
            old(graph)@.nodes.len() < u32::MAX,
            old(graph).vectors.num_vectors < usize::MAX,
            level < usize::MAX,
            2 * config.m <= usize::MAX,
            old(graph)@.nodes.len() > 0 ==> old(graph)@.entry_point is Some,
        ensures
            final(graph).wf(),
            old(graph)@.id_to_index.contains_key(id) ==> res is Err && final(graph)@ == old(graph)@,
            res matches Err(msg) ==> msg@ == crate::hnsw::duplicate_node_message(id),
            !old(graph)@.id_to_index.contains_key(id) ==> (res matches Ok(ins) && {
                &&& final(graph)@.nodes == old(graph)@.nodes.push(
                    fresh_node(id, old(graph)@.num_vectors, level as nat),
                )
                &&& final(graph)@.vectors == old(graph)@.vectors + vector@
                &&& final(graph)@.entry_point == (if old(graph)@.nodes.len() == 0 {
                    Some(0usize)
                } else {
                    old(graph)@.entry_point
                })
                &&& final(graph)@ == (GraphView {
                    nodes: final(graph)@.nodes,
                    id_to_index: old(graph)@.id_to_index.insert(id, old(graph)@.nodes.len() as usize),
                    vectors: final(graph)@.vectors,
                    num_vectors: old(graph)@.num_vectors + 1,
                    entry_point: final(graph)@.entry_point,
                    ..old(graph)@
                })
                &&& ins.fits(final(graph)@)
                &&& ins.new_idx == old(graph)@.nodes.len()
                &&& ins.level == level
                &&& ins.m == config.m
                &&& ins.ef_construction == config.ef_construction
                &&& ins.finished == (old(graph)@.nodes.len() == 0)
                &&& capped(old(graph)@, config.m as nat) ==> ins.keeps_capacity(final(graph)@)
                &&& sound(old(graph)@, config.m as nat) ==> ins.sound_in(final(graph)@)
                &&& !ins.finished ==> ({
                    let ep = old(graph)@.entry_point->0;
                    &&& ins.top == old(graph)@.nodes[ep as int].max_layer
                    &&& ins.layer == ins.top
                    &&& ins.descending == (ins.top > level)
                    &&& ins.eps@ == seq![ep]
                    &&& !ins.searched
                })
            }),
    {
        let previous = graph.entry_point();
        let new_idx = graph.add_node(id, vector, level)?;
        let mut ins = Insertion {
            new_idx,
            level,
            top: 0,
            layer: 0,
            descending: false,
            searched: false,
            finished: true,
            eps: Vec::new(),
            next_eps: Vec::new(),
            queue: Vec::new(),
            m: config.m,
            ef_construction: config.ef_construction,
        };
        match previous {
            None => {},
            Some(ep) => {
                let top = graph.nodes[ep].max_layer;
                proof {
                    assert(graph@.nodes[ep as int] == graph.nodes@[ep as int]@);
                }
                ins.top = top;
                ins.layer = top;
                ins.descending = top > level;
                ins.finished = false;
                ins.eps.push(ep);
            },
        }
        proof {
            if capped(old(graph)@, config.m as nat) {
                let g = graph@;
                assert forall|i: int, l: int|
                    0 <= i < g.nodes.len() && 0 <= l < g.nodes[i].neighbors.len() && !(l == ins.layer as int
                        && ins.queue@.contains(i as usize)) implies #[trigger] g.nodes[i].neighbors[l].len()
                    <= capacity(ins.m as nat, l as nat) by {
                    if i < old(graph)@.nodes.len() {
                        assert(g.nodes[i] == old(graph)@.nodes[i]);
                        assert(!Seq::<usize>::empty().contains(i as usize));
                    }
                }
            }
        }
        Ok(ins)
    }
    /// The layer is linked and pruned: move to the next lower layer, or,
    /// after layer 0, raise the entry point to the new node when it tops
    /// out higher and finish.
    fn advance(&mut self, graph: &mut HnswGraph)
        requires
            old(graph).wf(),
            old(self).new_idx < old(graph)@.nodes.len(),
            !old(self).finished,
            !old(self).descending,
        ensures
            final(graph).wf(),
            old(self).layer == 0 ==> final(self).finished && final(graph)@ == (GraphView {
                entry_point: match old(graph)@.entry_point {
                    Some(ep) => if old(graph)@.nodes[old(self).new_idx as int].max_layer
                        > old(graph)@.nodes[ep as int].max_layer {
                        Some(old(self).new_idx)
                    } else {
                        Some(ep)
                    },
                    None => Some(old(self).new_idx),
                },
                ..old(graph)@
            }),
            old(self).layer > 0 ==> !final(self).finished && final(self).layer == old(self).layer - 1
                && final(self).eps@ == old(self).next_eps@ && final(graph)@ == old(graph)@,
            !final(self).searched,
            final(self).queue@ == old(self).queue@,
            final(self).new_idx == old(self).new_idx,
            final(self).level == old(self).level,
            final(self).top == old(self).top,
            final(self).descending == old(self).descending,
            final(self).m == old(self).m,
            final(self).ef_construction == old(self).ef_construction,
            old(self).layer > 0 ==> final(self).next_eps@ == Seq::<usize>::empty(),
            old(self).layer == 0 ==> final(self).eps@ == old(self).eps@ && final(self).next_eps@ == old(self).next_eps@,
    {
        if self.layer == 0 {
            graph.raise_entry_point(self.new_idx);
            self.finished = true;
        } else {
            self.layer = self.layer - 1;
            std::mem::swap(&mut self.eps, &mut self.next_eps);
            self.next_eps = Vec::new();
        }
        self.searched = false;
    }
    /// Hand over the result of the search the insertion asked for (node
    /// `id`s are internal indices). While descending, the nearest result
    /// becomes the entry point of the next layer. While linking, the new
    /// node's list at the layer becomes the `capacity` nearest results
    /// (without the new node itself), each of them links back to the new
    /// node, those whose list then outgrows its capacity are queued for
    /// pruning, and all results become the entry points of the next layer.
    pub fn found(&mut self, graph: &mut HnswGraph, results: &[ScoredId])
        requires
            old(graph).wf(),
            old(self).fits(old(graph)@),
            !old(self).finished,
            !old(self).searched,
            forall|i: int|
                0 <= i < results@.len() ==> (#[trigger] results@[i]).id < old(graph)@.nodes.len() && (
                !old(self).descending ==> old(self).layer <= old(graph)@.nodes[results@[i].id as int].max_layer),
        ensures
            final(graph).wf(),
            final(self).fits(final(graph)@),
            final(self).searches_left() + 1 == old(self).searches_left(),
            old(self).keeps_capacity(old(graph)@) ==> final(self).keeps_capacity(final(graph)@),
            old(self).sound_in(old(graph)@) ==> final(self).sound_in(final(graph)@),
            final(graph)@.nodes.len() == old(graph)@.nodes.len(),
            forall|i: int|
                0 <= i < old(graph)@.nodes.len() ==> (#[trigger] final(graph)@.nodes[i]).max_layer
                    == old(graph)@.nodes[i].max_layer,
            old(self).descending ==> final(graph)@ == old(graph)@ && final(self).eps@ == (if results@.len() > 0 {
                seq![results@[0].id as usize]
            } else {
                old(self).eps@
            }),
            !old(self).descending ==> ({
                let layer = old(self).layer as int;
                let list = final(graph)@.nodes[old(self).new_idx as int].neighbors[layer];
                &&& exists|r: Seq<ScoredId>, p: Seq<int>|
                    is_top_k_total(
                        without(results@, old(self).new_idx),
                        without(results@, old(self).new_idx).len() as int,
                        capacity(old(self).m as nat, old(self).layer as nat),
                        r,
                        p,
                    ) && list == r.map_values(|s: ScoredId| s.id as u32)
                &&& final(graph)@.nodes == linked_nodes(old(graph)@, old(self).new_idx, layer, list)
                &&& forall|j: int|
                    0 <= j < list.len() ==> final(graph)@.nodes[#[trigger] list[j] as int].neighbors[layer].contains(
                        old(self).new_idx as u32,
                    )
            }),
            final(graph)@ == (GraphView {
                nodes: final(graph)@.nodes,
                entry_point: final(graph)@.entry_point,
                ..old(graph)@
            }),
            final(graph)@.entry_point == (if final(self).finished {
                raised(old(graph)@, old(self).new_idx)
            } else {
                old(graph)@.entry_point
            }),
    {
        let ghost capped0 = self.keeps_capacity(graph@);
        proof {
            assert(old(graph)@.nodes[self.new_idx as int].max_layer == self.level);
        }
        if self.descending {
            if results.len() > 0 {
                let mut eps: Vec<usize> = Vec::new();
                eps.push(results[0].id as usize);
                self.eps = eps;
            }
            self.layer = self.layer - 1;
            if self.layer == self.level {
                self.descending = false;
            }
            proof {
                lemma_capped_any_layer(graph@, self.m as nat, old(self).layer as int, self.layer as int, self.queue@);
            }
            return;
        }
        let layer = self.layer;
        let cap = if layer == 0 { 2 * self.m } else { self.m };
        let ghost g0 = graph@;
        // Results other than the new node, and all results as next entry points.
        let mut cands: Vec<ScoredId> = Vec::new();
        let mut next: Vec<usize> = Vec::new();
        let mut i: usize = 0;
        while i < results.len()
            invariant
                i <= results@.len(),
                cands@ == without(results@.take(i as int), self.new_idx),
                next@.len() == i,
                forall|t: int| 0 <= t < i ==> next@[t] == results@[t].id as usize,
            decreases results@.len() - i,
        {
            let r = results[i];
            proof {
                assert(results@.take(i as int + 1).drop_last() =~= results@.take(i as int));
                assert(results@.take(i as int + 1).last() == r);
            }
            if r.id != self.new_idx as u64 {
                cands.push(r);
            }
            next.push(r.id as usize);
            i = i + 1;
        }
        proof {
            assert(results@.take(results@.len() as int) =~= results@);
            lemma_without(results@, self.new_idx);
        }
        let selected = select_neighbors(cands.as_slice(), cap);
        let ghost rp = choose|r: Seq<ScoredId>, p: Seq<int>|
            is_top_k_total(cands@, cands@.len() as int, cap as nat, r, p) && selected@ == r.map_values(
                |s: ScoredId| s.id as usize,
            );
        let ghost r = rp.0;
        let ghost p = rp.1;
        // The selected nodes, as stored in neighbor lists.
        let mut list: Vec<u32> = Vec::new();
        let mut k: usize = 0;
        while k < selected.len()
            invariant
                k <= selected@.len(),
                selected@ == r.map_values(|s: ScoredId| s.id as usize),
                is_top_k_total(cands@, cands@.len() as int, cap as nat, r, p),
                cands@ == without(results@, self.new_idx),
                forall|t: int| 0 <= t < cands@.len() ==> results@.contains(#[trigger] cands@[t]) && cands@[t].id
                    != self.new_idx as u64,
                forall|t: int|
                    0 <= t < results@.len() ==> (#[trigger] results@[t]).id < g0.nodes.len() && layer
                        <= g0.nodes[results@[t].id as int].max_layer,
                g0.nodes.len() <= u32::MAX,
                list@.len() == k,
                forall|t: int| 0 <= t < k ==> list@[t] == r[t].id as u32,
                forall|t: int| 0 <= t < k ==> (#[trigger] r[t]).id < g0.nodes.len(),
                forall|t: int| 0 <= t < k ==> (#[trigger] list@[t]) < g0.nodes.len() && layer <= g0.nodes[list@[t] as int].max_layer && list@[t] != self.new_idx,
            decreases selected@.len() - k,
        {
            proof {
                let c = cands@[p[k as int]];
                assert(r[k as int] == c);
                assert(results@.contains(c));
                let q = choose|q: int| 0 <= q < results@.len() && results@[q] == c;
                assert(results@[q].id < g0.nodes.len());
                assert(selected@[k as int] == r[k as int].id as usize);
                assert(r[k as int].id < g0.nodes.len());
            }
            list.push(selected[k] as u32);
            k = k + 1;
        }
        proof {
            assert(list@ =~= r.map_values(|s: ScoredId| s.id as u32));
        }
        let ghost lst = list@;
        graph.set_neighbors(self.new_idx, layer, list);
        proof {
            assert(lst.take(0) =~= Seq::<u32>::empty());
            assert forall|a: int| 0 <= a < g0.nodes.len() implies #[trigger] graph@.nodes[a] == (if a == self.new_idx as int {
                with_list(g0.nodes[a], layer as int, lst)
            } else if lst.take(0).contains(a as u32) {
                with_list(g0.nodes[a], layer as int, linked(g0.nodes[a].neighbors[layer as int], self.new_idx as u32))
            } else {
                g0.nodes[a]
            }) by {
                if a != self.new_idx as int {
                    assert(!lst.take(0).contains(a as u32));
                }
            }
            if capped0 {
                let g = graph@;
                assert forall|a: int, l: int|
                    0 <= a < g.nodes.len() && 0 <= l < g.nodes[a].neighbors.len() && !(l == layer as int
                        && Seq::<usize>::empty().contains(a as usize)) implies #[trigger] g.nodes[a].neighbors[l].len()
                    <= capacity(self.m as nat, l as nat) by {
                    if a == self.new_idx as int && l == layer as int {
                        assert(g.nodes[a].neighbors[l] == lst);
                    } else {
                        assert(!self.queue@.contains(a as usize));
                        if a != self.new_idx as int {
                            assert(g.nodes[a] == g0.nodes[a]);
                        }
                    }
                }
            }
        }
        // Link back from every selected node.
        let mut queue: Vec<usize> = Vec::new();
        let mut j: usize = 0;
        while j < selected.len()
            invariant
                graph.wf(),
                j <= selected@.len(),
                lst.len() == selected@.len(),
                forall|t: int| 0 <= t < lst.len() ==> lst[t] == selected@[t] as u32 && selected@[t] < g0.nodes.len(),
                forall|t: int| 0 <= t < lst.len() ==> (#[trigger] lst[t]) < g0.nodes.len() && layer <= g0.nodes[lst[t] as int].max_layer && lst[t] != self.new_idx,
                graph@.nodes.len() == g0.nodes.len(),
                forall|t: int| 0 <= t < g0.nodes.len() ==> (#[trigger] graph@.nodes[t]).max_layer == g0.nodes[t].max_layer,
                self.new_idx < g0.nodes.len(),
                graph@.nodes[self.new_idx as int].neighbors[layer as int] == lst,
                forall|t: int| 0 <= t < j ==> graph@.nodes[lst[t] as int].neighbors[layer as int].contains(self.new_idx as u32),
                forall|t: int| 0 <= t < queue@.len() ==> (#[trigger] queue@[t]) < g0.nodes.len() && layer <= g0.nodes[queue@[t] as int].max_layer,
                cap as nat == capacity(self.m as nat, layer as nat),
                capped0 ==> capped_except(graph@, self.m as nat, layer as int, queue@),
                g0.wf(),
                graph@ == (GraphView { nodes: graph@.nodes, ..g0 }),
                forall|a: int|
                    0 <= a < g0.nodes.len() ==> #[trigger] graph@.nodes[a] == (if a == self.new_idx as int {
                        with_list(g0.nodes[a], layer as int, lst)
                    } else if lst.take(j as int).contains(a as u32) {
                        with_list(g0.nodes[a], layer as int, linked(g0.nodes[a].neighbors[layer as int], self.new_idx as u32))
                    } else {
                        g0.nodes[a]
                    }),
            decreases selected@.len() - j,
        {
            let f = selected[j];
            proof {
                assert(lst[j as int] == f as u32);
                assert(layer <= graph@.nodes[f as int].max_layer);
            }
            let ghost gb = graph@;
            let added = graph.add_edge(f, layer, self.new_idx as u32);
            proof {
                assert forall|t: int| 0 <= t < g0.nodes.len() implies (#[trigger] graph@.nodes[t]).max_layer == g0.nodes[t].max_layer by {
                    if t == f as int {
                    } else {
                        assert(graph@.nodes[t] == gb.nodes[t]);
                    }
                }
                assert(graph@.nodes[self.new_idx as int] == gb.nodes[self.new_idx as int]);
                assert forall|t: int| 0 <= t < j + 1 implies graph@.nodes[lst[t] as int].neighbors[layer as int].contains(self.new_idx as u32) by {
                    let a = lst[t] as int;
                    if a == f as int {
                        if added {
                            let l2 = gb.nodes[a].neighbors[layer as int].push(self.new_idx as u32);
                            assert(l2[l2.len() - 1] == self.new_idx as u32);
                        }
                    } else {
                        assert(graph@.nodes[a] == gb.nodes[a]);
                    }
                }
            }
            proof {
                let nx = j as int + 1;
                assert(lst.take(nx) =~= lst.take(j as int).push(lst[j as int]));
                assert forall|a: int| 0 <= a < g0.nodes.len() implies #[trigger] graph@.nodes[a] == (if a == self.new_idx as int {
                    with_list(g0.nodes[a], layer as int, lst)
                } else if lst.take(nx).contains(a as u32) {
                    with_list(g0.nodes[a], layer as int, linked(g0.nodes[a].neighbors[layer as int], self.new_idx as u32))
                } else {
                    g0.nodes[a]
                }) by {
                    let nw = self.new_idx as u32;
                    if a == f as int {
                        assert(lst.take(nx).contains(a as u32)) by {
                            assert(lst.take(nx)[j as int] == f as u32);
                        }
                        let g0l = g0.nodes[a].neighbors[layer as int];
                        assert(node_wf(g0.nodes[a], g0.nodes.len()));
                        if lst.take(j as int).contains(a as u32) {
                            assert(gb.nodes[a].neighbors[layer as int] == linked(g0l, nw));
                            assert(linked(g0l, nw).contains(nw)) by {
                                if !g0l.contains(nw) {
                                    assert(g0l.push(nw)[g0l.len() as int] == nw);
                                }
                            }
                            assert(!added);
                            assert(graph@.nodes[a].neighbors =~= gb.nodes[a].neighbors);
                        } else {
                            assert(gb.nodes[a] == g0.nodes[a]);
                            assert(graph@.nodes[a].neighbors =~= g0.nodes[a].neighbors.update(layer as int, linked(g0l, nw)));
                        }
                    } else {
                        assert(graph@.nodes[a] == gb.nodes[a]);
                        if a != self.new_idx as int {
                            assert(lst.take(nx).contains(a as u32) == lst.take(j as int).contains(a as u32)) by {
                                if lst.take(nx).contains(a as u32) {
                                    let q = choose|q: int| 0 <= q < nx && lst.take(nx)[q] == a as u32;
                                    if q < j as int {
                                        assert(lst.take(j as int)[q] == a as u32);
                                    }
                                }
                                if lst.take(j as int).contains(a as u32) {
                                    let q = choose|q: int| 0 <= q < j as int && lst.take(j as int)[q] == a as u32;
                                    assert(lst.take(nx)[q] == a as u32);
                                }
                            }
                        }
                    }
                }
            }
            let ghost qb = queue@;
            if added {
                let len = graph.get_neighbors(f, layer).len();
                if len > cap {
                    queue.push(f);
                }
            }
            proof {
                if capped0 {
                    let g = graph@;
                    assert forall|a: int, l: int|
                        0 <= a < g.nodes.len() && 0 <= l < g.nodes[a].neighbors.len() && !(l == layer as int
                            && queue@.contains(a as usize)) implies #[trigger] g.nodes[a].neighbors[l].len()
                        <= capacity(self.m as nat, l as nat) by {
                        if a == f as int {
                            assert(g.nodes[a].neighbors.len() == gb.nodes[a].neighbors.len());
                            if l == layer as int {
                                if added {
                                    if queue@.len() > qb.len() {
                                        assert(queue@[queue@.len() - 1] == f);
                                    }
                                } else {
                                    assert(g.nodes[a].neighbors[l] == gb.nodes[a].neighbors[l]);
                                    assert(!qb.contains(a as usize));
                                }
                            } else {
                                assert(g.nodes[a].neighbors[l] == gb.nodes[a].neighbors[l]);
                            }
                        } else {
                            assert(g.nodes[a] == gb.nodes[a]);
                            if l == layer as int && qb.contains(a as usize) {
                                let q = choose|q: int| 0 <= q < qb.len() && qb[q] == a as usize;
                                assert(queue@[q] == qb[q]);
                            }
                        }
                    }
                }
            }
            j = j + 1;
        }
        let ghost g1 = graph@;
        proof {
            assert(r.map_values(|s: ScoredId| s.id as u32) == lst);
            assert(cands@ == without(results@, self.new_idx));
            assert(is_top_k_total(without(results@, self.new_idx), without(results@, self.new_idx).len() as int, capacity(self.m as nat, layer as nat), r, p));
        }
        self.queue = queue;
        self.next_eps = next;
        self.searched = true;
        proof {
            assert forall|t: int| 0 <= t < self.next_eps@.len() implies #[trigger] self.next_eps@[t] < graph@.nodes.len() by {
                assert(results@[t].id < g0.nodes.len());
            }
        }
        proof {
            assert(lst.take(lst.len() as int) =~= lst);
            assert(g1.nodes =~= linked_nodes(g0, self.new_idx, layer as int, lst));
            if let Some(ep) = g0.entry_point {
                assert(g1.nodes[ep as int].max_layer == g0.nodes[ep as int].max_layer);
            }
            assert(g1.nodes[self.new_idx as int].max_layer == g0.nodes[self.new_idx as int].max_layer);
        }
        let ghost ql = self.layer;
        if self.queue.len() == 0 {
            self.advance(graph);
        }
        proof {
            assert(graph@.nodes == g1.nodes);
            if capped0 {
                lemma_capped_same_nodes(g1, graph@, self.m as nat, layer as int, self.queue@);
                lemma_capped_any_layer(graph@, self.m as nat, ql as int, self.layer as int, self.queue@);
            }
            let list = graph@.nodes[self.new_idx as int].neighbors[layer as int];
            assert(list == lst);
            assert forall|t: int| 0 <= t < list.len() implies graph@.nodes[#[trigger] list[t] as int].neighbors[layer as int].contains(
                self.new_idx as u32,
            ) by {
                assert(list[t] == lst[t]);
            }
        }
    }
    /// Hand over the distances from the node the insertion asked to prune
    /// to each of its neighbors at the layer (`dists[i]` for the `i`-th):
    /// the node keeps the `capacity` nearest of them.
    pub fn pruned(&mut self, graph: &mut HnswGraph, dists: &[u32])
        requires
            old(graph).wf(),
            old(self).fits(old(graph)@),
            !old(self).finished,
            !old(self).descending,
            old(self).searched,
            old(self).queue@.len() > 0,
            dists@.len() == old(graph)@.nodes[old(self).queue@.last() as int].neighbors[old(self).layer as int].len(),
        ensures
            final(graph).wf(),
            final(self).fits(final(graph)@),
            final(self).searches_left() == old(self).searches_left(),
            final(self).queue@.len() + 1 == old(self).queue@.len(),
            old(self).keeps_capacity(old(graph)@) ==> final(self).keeps_capacity(final(graph)@),
            old(self).sound_in(old(graph)@) ==> final(self).sound_in(final(graph)@),
            final(graph)@.nodes.len() == old(graph)@.nodes.len(),
            forall|i: int|
                0 <= i < old(graph)@.nodes.len() ==> (#[trigger] final(graph)@.nodes[i]).max_layer
                    == old(graph)@.nodes[i].max_layer,
            ({
                let node = old(self).queue@.last() as int;
                let layer = old(self).layer as int;
                let nbrs = old(graph)@.nodes[node].neighbors[layer];
                let cands = Seq::new(nbrs.len(), |i: int| ScoredId { id: nbrs[i] as u64, score_bits: dists@[i] });
                exists|r: Seq<ScoredId>, p: Seq<int>|
                    is_top_k_total(cands, cands.len() as int, capacity(old(self).m as nat, old(self).layer as nat), r, p)
                        && final(graph)@.nodes[node].neighbors[layer] == r.map_values(|s: ScoredId| s.id as u32)
            }),
            final(graph)@ == (GraphView {
                nodes: old(graph)@.nodes.update(
                    old(self).queue@.last() as int,
                    with_list(
                        old(graph)@.nodes[old(self).queue@.last() as int],
                        old(self).layer as int,
                        final(graph)@.nodes[old(self).queue@.last() as int].neighbors[old(self).layer as int],
                    ),
                ),
                entry_point: final(graph)@.entry_point,
                ..old(graph)@
            }),
            final(graph)@.entry_point == (if final(self).finished {
                raised(old(graph)@, old(self).new_idx)
            } else {
                old(graph)@.entry_point
            }),
    {
        let layer = self.layer;
        let cap = if layer == 0 { 2 * self.m } else { self.m };
        let node = self.queue[self.queue.len() - 1];
        let ghost g0 = graph@;
        let ghost q0 = self.queue@;
        let ghost capped0 = self.keeps_capacity(graph@);
        let ghost sound0 = self.sound_in(graph@);
        proof {
            assert(g0.nodes[node as int].max_layer >= layer);
        }
        let nbrs = graph.get_neighbors(node, layer);
        let ghost nb = nbrs@;
        let ghost want = Seq::new(nb.len(), |i: int| ScoredId { id: nb[i] as u64, score_bits: dists@[i] });
        proof {
            assert(node_layer_fits(g0, node as int, layer as int));
        }
        let mut cands: Vec<ScoredId> = Vec::new();
        let mut i: usize = 0;
        while i < nbrs.len()
            invariant
                nbrs@ == nb,
                i <= nb.len(),
                dists@.len() == nb.len(),
                want.len() == nb.len(),
                forall|t: int| 0 <= t < nb.len() ==> #[trigger] want[t] == (ScoredId { id: nb[t] as u64, score_bits: dists@[t] }),
                cands@ == want.take(i as int),
            decreases nb.len() - i,
        {
            cands.push(ScoredId { id: nbrs[i] as u64, score_bits: dists[i] });
            i = i + 1;
            proof {
                assert(cands@ =~= want.take(i as int));
            }
        }
        proof {
            assert(cands@ =~= want);
        }
        let selected = select_neighbors(cands.as_slice(), cap);
        let ghost rp = choose|r: Seq<ScoredId>, p: Seq<int>|
            is_top_k_total(cands@, cands@.len() as int, cap as nat, r, p) && selected@ == r.map_values(
                |s: ScoredId| s.id as usize,
            );
        let ghost r = rp.0;
        let ghost p = rp.1;
        let mut list: Vec<u32> = Vec::new();
        let mut k: usize = 0;
        while k < selected.len()
            invariant
                k <= selected@.len(),
                selected@ == r.map_values(|s: ScoredId| s.id as usize),
                is_top_k_total(cands@, cands@.len() as int, cap as nat, r, p),
                cands@ == want,
                want.len() == nb.len(),
                forall|t: int| 0 <= t < nb.len() ==> #[trigger] want[t] == (ScoredId { id: nb[t] as u64, score_bits: dists@[t] }),
                forall|t: int| 0 <= t < nb.len() ==> (#[trigger] nb[t]) < g0.nodes.len(),
                g0.nodes.len() <= u32::MAX,
                list@.len() == k,
                forall|t: int| 0 <= t < k ==> list@[t] == r[t].id as u32,
                forall|t: int| 0 <= t < k ==> (#[trigger] list@[t]) < g0.nodes.len(),
            decreases selected@.len() - k,
        {
            proof {
                let q = p[k as int];
                assert(r[k as int] == want[q]);
                assert(want[q].id == nb[q] as u64);
                assert(nb[q] < g0.nodes.len());
            }
            list.push(selected[k] as u32);
            k = k + 1;
        }
        proof {
            assert(list@ =~= r.map_values(|s: ScoredId| s.id as u32));
        }
        let ghost lst = list@;
        graph.set_neighbors(node, layer, list);
        self.queue.pop();
        proof {
            if capped0 {
                let g = graph@;
                assert(q0 == self.queue@.push(node));
                assert forall|a: int, l: int|
                    0 <= a < g.nodes.len() && 0 <= l < g.nodes[a].neighbors.len() && !(l == layer as int
                        && self.queue@.contains(a as usize)) implies #[trigger] g.nodes[a].neighbors[l].len()
                    <= capacity(self.m as nat, l as nat) by {
                    if a == node as int && l == layer as int {
                        assert(g.nodes[a].neighbors[l] == lst);
                    } else {
                        if a != node as int {
                            assert(g.nodes[a] == g0.nodes[a]);
                            if l == layer as int && q0.contains(a as usize) {
                                let q = choose|q: int| 0 <= q < q0.len() && q0[q] == a as usize;
                                assert(q < self.queue@.len());
                                assert(self.queue@[q] == q0[q]);
                            }
                        } else {
                            assert(g.nodes[a].neighbors[l] == g0.nodes[a].neighbors[l]);
                        }
                    }
                }
            }
        }
        proof {
            assert forall|t: int| 0 <= t < g0.nodes.len() implies (#[trigger] graph@.nodes[t]).max_layer
                == g0.nodes[t].max_layer by {
                if t != node as int {
                    assert(graph@.nodes[t] == g0.nodes[t]);
                }
            }
        }
        let ghost g1 = graph@;
        proof {
            assert(g1.nodes[node as int].neighbors[layer as int] == lst);
            if let Some(ep) = g0.entry_point {
                assert(g1.nodes[ep as int].max_layer == g0.nodes[ep as int].max_layer);
            }
            assert(g1.nodes[self.new_idx as int].max_layer == g0.nodes[self.new_idx as int].max_layer);
            if sound0 {
                assert(nb == g0.nodes[node as int].neighbors[layer as int]);
                assert forall|i: int, l: int, t: int|
                    0 <= i < g1.nodes.len() && 0 <= l < g1.nodes[i].neighbors.len() && 0 <= t
                        < g1.nodes[i].neighbors[l].len() implies g1.nodes[#[trigger] g1.nodes[i].neighbors[l][t] as int].max_layer
                    >= l by {
                    if i == node as int && l == layer as int {
                        let q = p[t];
                        assert(lst[t] == r[t].id as u32);
                        assert(r[t] == want[q]);
                        assert(want[q].id == nb[q] as u64);
                        assert(g0.nodes[i].neighbors[l][q] == nb[q]);
                        assert(g0.nodes[nb[q] as int].max_layer >= l);
                    } else if i != node as int {
                        assert(g1.nodes[i] == g0.nodes[i]);
                        assert(g0.nodes[g0.nodes[i].neighbors[l][t] as int].max_layer >= l);
                    } else {
                        assert(g1.nodes[i].neighbors[l] == g0.nodes[i].neighbors[l]);
                        assert(g0.nodes[g0.nodes[i].neighbors[l][t] as int].max_layer >= l);
                    }
                }
                assert forall|i: int| 0 <= i < g1.nodes.len() implies (#[trigger] g1.nodes[i]).vector_idx == i by {
                    if i != node as int {
                        assert(g1.nodes[i] == g0.nodes[i]);
                    }
                }
            }
        }
        let ghost ql = self.layer;
        if self.queue.len() == 0 {
            self.advance(graph);
        }
        proof {
            assert(graph@.nodes == g1.nodes);
            if capped0 {
                lemma_capped_same_nodes(g1, graph@, self.m as nat, layer as int, self.queue@);
                lemma_capped_any_layer(graph@, self.m as nat, ql as int, self.layer as int, self.queue@);
            }
            assert(is_top_k_total(want, want.len() as int, capacity(self.m as nat, layer as nat), r, p));
            if sound0 {
                assert(layered(graph@));
                if self.finished {
                    lemma_raise_tops(g0, graph@, self.new_idx);
                } else {
                    lemma_keep_tops(g0, graph@, self.new_idx as int);
                }
            }
        }
    }
}

/// A finished insertion leaves the graph sound: what `begin`, `found` and
/// `pruned` keep from a sound graph holds of the whole insertion once
/// `next` says it is done.
pub proof fn lemma_finished_sound(ins: Insertion, g: GraphView)
    requires
        ins.sound_in(g),
        ins.finished,
    ensures
        sound(g, ins.m as nat),
{
    lemma_capped_any_layer(g, ins.m as nat, ins.layer as int, -1, ins.queue@);
}

/// Raising the entry point to the new node where it tops out higher makes
/// the entry point reach as high as every node.
proof fn lemma_raise_tops(g: GraphView, h: GraphView, node: usize)
    requires
        g.wf(),
        tops_but(g, node as int),
        node < g.nodes.len(),
        h.nodes.len() == g.nodes.len(),
        forall|i: int| 0 <= i < g.nodes.len() ==> (#[trigger] h.nodes[i]).max_layer == g.nodes[i].max_layer,
        h.entry_point == raised(g, node),
    ensures
        tops_but(h, -1),
{
    let ep = g.entry_point->0;
    assert(h.nodes[ep as int].max_layer == g.nodes[ep as int].max_layer);
    assert(h.nodes[node as int].max_layer == g.nodes[node as int].max_layer);
}

/// Keeping the entry point and every top layer keeps it reaching as high.
proof fn lemma_keep_tops(g: GraphView, h: GraphView, skip: int)
    requires
        g.wf(),
        tops_but(g, skip),
        h.nodes.len() == g.nodes.len(),
        forall|i: int| 0 <= i < g.nodes.len() ==> (#[trigger] h.nodes[i]).max_layer == g.nodes[i].max_layer,
        h.entry_point == g.entry_point,
    ensures
        tops_but(h, skip),
{
    let ep = g.entry_point->0;
    assert(h.nodes[ep as int].max_layer == g.nodes[ep as int].max_layer);
}

/// With nothing queued, the layer of the exception does not matter.
proof fn lemma_capped_any_layer(g: GraphView, m: nat, from: int, to: int, queue: Seq<usize>)
    ensures
        capped_except(g, m, from, queue) && (queue.len() == 0 || from == to) ==> capped_except(g, m, to, queue),
{
}

/// The bound holds of any graph with the same nodes.
proof fn lemma_capped_same_nodes(g: GraphView, h: GraphView, m: nat, layer: int, queue: Seq<usize>)
    requires
        g.nodes == h.nodes,
    ensures
        capped_except(g, m, layer, queue) ==> capped_except(h, m, layer, queue),
{
}

/// The neighbors of node `i` at `layer` are nodes of the graph.
pub open spec fn node_layer_fits(g: GraphView, i: int, layer: int) -> bool {
    forall|t: int|
        0 <= t < g.nodes[i].neighbors[layer].len() ==> (#[trigger] g.nodes[i].neighbors[layer][t]) < g.nodes.len()
}

} // verus!
